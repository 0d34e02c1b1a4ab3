//! The two session state machines, one per endpoint, written as pure steps
//! from state and inbound message to new state and outbound messages. The
//! caller owns the transport: it reads the local file, frames and sends what
//! a step returns, and feeds decoded inbound messages back in.
//!
//! The updater opens the exchange with its file name and the weak checksums
//! of its non-overlapping blocks. The source files those in the match index,
//! rolls its own bytes, and asks the updater for strong hashes over the
//! candidate updater offsets. On the answer it confirms matches, then sends
//! both the confirmed pairs and the instruction list that rebuilds the
//! source file from updater-local blocks plus literal inserts.

use vstd::prelude::*;
use std::collections::HashMap;
use crate::{block_count, block_end, rolling_count, rolling_window, CheckSum, ChecksumConfig, Checksums};
use crate::multisearch::{
    build_index, lemma_offsets_for_elem, lemma_offsets_for_contains, offsets_for, probe, table_at,
    table_wf,
};
use crate::network::{InstrModel, Instruction, Message};
use crate::strong_checksum::{block_hash, StrongCheckSum};
use crate::weak_checksum::{weak_blocks, weak_rolling};

verus! {

/// The byte offsets of the updater blocks whose weak checksum occurs
/// somewhere in the source's rolling stream: what the source asks strong
/// hashes for, in ascending order, each offset once.
pub open spec fn candidate_offsets(ws: Seq<u32>, rolling: Seq<u32>, b: int) -> Seq<usize>
    decreases ws.len(),
{
    if ws.len() == 0 {
        Seq::empty()
    } else {
        candidate_offsets(ws.drop_last(), rolling, b) + if rolling.contains(ws.last()) {
            seq![((ws.len() - 1) * b) as usize]
        } else {
            Seq::empty()
        }
    }
}

/// The first strong hash reported for updater offset `u`, walking the
/// response front to back; nothing when the response has none for `u`.
pub open spec fn lookup_hash(hs: Seq<(usize, u128)>, u: usize) -> Option<u128>
    decreases hs.len(),
{
    if hs.len() == 0 {
        None
    } else if hs[0].0 == u {
        Some(hs[0].1)
    } else {
        lookup_hash(hs.drop_first(), u)
    }
}

/// The confirmed pairs one source offset contributes: each candidate updater
/// offset whose reported strong hash equals the source block's own, in
/// candidate order.
pub open spec fn pairs_for_offset(
    cands: Seq<usize>,
    hs: Seq<(usize, u128)>,
    so: u128,
    o: usize,
) -> Seq<(usize, usize)>
    decreases cands.len(),
{
    if cands.len() == 0 {
        Seq::empty()
    } else {
        (if lookup_hash(hs, cands[0]) == Some(so) {
            seq![(cands[0], o)]
        } else {
            Seq::empty()
        }) + pairs_for_offset(cands.drop_first(), hs, so, o)
    }
}

/// All confirmed pairs `(updater offset, source offset)` over the source's
/// first `count` rolling offsets, ascending by source offset.
pub open spec fn confirmed_pairs(
    data: Seq<u8>,
    rolling: Seq<u32>,
    t: Map<u16, HashMap<u32, Vec<usize>>>,
    hs: Seq<(usize, u128)>,
    b: int,
) -> Seq<(usize, usize)>
    decreases rolling.len(),
{
    if rolling.len() == 0 {
        Seq::empty()
    } else {
        confirmed_pairs(data, rolling.drop_last(), t, hs, b) + pairs_for_offset(
            table_at(t, rolling.last()),
            hs,
            block_hash(data, rolling.len() - 1, b),
            (rolling.len() - 1) as usize,
        )
    }
}

/// What the updater answers a strong-checksum request with: each requested
/// offset (clipped to its file's length) paired with the strong hash of the
/// block there.
pub open spec fn strong_response(req: Seq<usize>, data: Seq<u8>, b: int) -> Seq<(usize, u128)> {
    Seq::new(
        req.len(),
        |i: int|
            (
                req[i],
                block_hash(
                    data,
                    if req[i] <= data.len() {
                        req[i] as int
                    } else {
                        data.len() as int
                    },
                    b,
                ),
            ),
    )
}

/// Where the updater's state machine stands in the exchange.
#[derive(Debug, Clone, Copy, PartialEq, Eq, Structural)]
pub enum UpdaterState {
    Opening,
    AwaitingStrongRequest,
    AwaitingMatches,
    Done,
}

/// The updater endpoint: holds the stale file, opens the exchange, answers
/// strong-checksum requests, and records the matches and instructions the
/// source sends back for the external reconstructor.
#[derive(Debug)]
pub struct UpdaterSession {
    pub state: UpdaterState,
    pub checksum: CheckSum,
    pub remote_file_path: String,
    pub own_data: Vec<u8>,
    pub weak_checksums: Vec<u32>,
    pub matches: Vec<(usize, usize)>,
    pub instructions: Vec<Instruction>,
}

impl UpdaterSession {
    /// The session's invariant: its checksum configuration is usable.
    pub open spec fn wf(self) -> bool {
        self.checksum.valid()
    }

    /// A fresh updater session over its local file bytes, about to open the
    /// exchange for the named remote file.
    pub fn new(config: &ChecksumConfig, remote_file_path: String, own_data: Vec<u8>) -> (r: Self)
        requires
            config.valid(),
        ensures
            r.wf(),
            r.state is Opening,
            r.checksum.weak.spec_block_size() == config.block_size,
            r.checksum.weak.spec_modulus() == config.modulus,
            r.checksum.strong.spec_block_size() == config.block_size,
            r.remote_file_path@ == remote_file_path@,
            r.own_data@ == own_data@,
            r.weak_checksums@.len() == 0,
            r.matches@.len() == 0,
            r.instructions@.len() == 0,
    {
        Self {
            state: UpdaterState::Opening,
            checksum: CheckSum::with_config(config),
            remote_file_path,
            own_data,
            weak_checksums: Vec::new(),
            matches: Vec::new(),
            instructions: Vec::new(),
        }
    }

    /// Opens the exchange: computes the weak checksums of the file's
    /// non-overlapping blocks, keeps them (they are never recomputed), and
    /// hands back the file name and the checksums to send.
    pub fn start(&mut self) -> (r: Vec<Message>)
        requires
            old(self).wf(),
            old(self).state is Opening,
        ensures
            final(self).wf(),
            final(self).state is AwaitingStrongRequest,
            final(self).checksum == old(self).checksum,
            final(self).own_data == old(self).own_data,
            final(self).remote_file_path == old(self).remote_file_path,
            final(self).weak_checksums@ == weak_blocks(
                old(self).own_data@,
                old(self).checksum.weak.spec_block_size() as int,
                old(self).checksum.weak.spec_modulus() as int,
            ),
            r@.len() == 2,
            r@[0] is FileName && r@[0]->FileName_0@ == old(self).remote_file_path@,
            r@[1] is WeakChecksums && r@[1]->WeakChecksums_0@ == final(self).weak_checksums@,
    {
        self.weak_checksums = self.checksum.weak.checksums_non_overlapping(
            self.own_data.as_slice(),
        );
        self.state = UpdaterState::AwaitingStrongRequest;
        let mut out: Vec<Message> = Vec::new();
        out.push(Message::FileName(self.remote_file_path.clone()));
        out.push(Message::WeakChecksums(clone_u32s(&self.weak_checksums)));
        out
    }

    /// One step of the updater's state machine: answers a strong-checksum
    /// request with the hashes of the requested blocks, records the match
    /// list when it arrives, and keeps the instruction list for the external
    /// reconstructor; anything else is ignored where the state does not
    /// expect it.
    pub fn handle_message(&mut self, msg: Message) -> (r: Vec<Message>)
        requires
            old(self).wf(),
        ensures
            final(self).wf(),
            final(self).checksum == old(self).checksum,
            final(self).own_data == old(self).own_data,
            final(self).weak_checksums == old(self).weak_checksums,
            old(self).state is AwaitingStrongRequest && msg is StrongChecksumRequest ==> {
                &&& final(self).state is AwaitingMatches
                &&& r@.len() == 1
                &&& r@[0] is StrongChecksums
                &&& r@[0]->StrongChecksums_0@ == strong_response(
                    msg->StrongChecksumRequest_0@,
                    old(self).own_data@,
                    old(self).checksum.strong.spec_block_size() as int,
                )
            },
            old(self).state is AwaitingMatches && msg is Matches ==> {
                &&& final(self).state is Done
                &&& final(self).matches@ == msg->Matches_0@
                &&& r@.len() == 0
            },
            msg is Instructions ==> {
                &&& final(self).state == old(self).state
                &&& final(self).instructions@ == msg->Instructions_0@
                &&& r@.len() == 0
            },
            !(old(self).state is AwaitingStrongRequest && msg is StrongChecksumRequest) && !(old(
                self,
            ).state is AwaitingMatches && msg is Matches) && !(msg is Instructions) ==> {
                &&& final(self).state == old(self).state
                &&& final(self).matches == old(self).matches
                &&& final(self).instructions == old(self).instructions
                &&& r@.len() == 0
            },
    {
        let mut out: Vec<Message> = Vec::new();
        match msg {
            Message::StrongChecksumRequest(offsets) => {
                if matches!(self.state, UpdaterState::AwaitingStrongRequest) {
                    let ghost req = offsets@;
                    let ghost data = self.own_data@;
                    let ghost b = self.checksum.strong.spec_block_size() as int;
                    let mut response: Vec<(usize, u128)> = Vec::new();
                    let mut j: usize = 0;
                    while j < offsets.len()
                        invariant
                            req == offsets@,
                            data == self.own_data@,
                            b == self.checksum.strong.spec_block_size() as int,
                            b >= 1,
                            j <= req.len(),
                            response@ == strong_response(req, data, b).take(j as int),
                        decreases req.len() - j,
                    {
                        let u: usize = offsets[j];
                        let clipped: usize = if u <= self.own_data.len() {
                            u
                        } else {
                            self.own_data.len()
                        };
                        let digest = self.checksum.strong.checksum_for_block(
                            clipped,
                            self.own_data.as_slice(),
                        );
                        response.push((u, digest));
                        proof {
                            assert(response@ =~= strong_response(req, data, b).take(j as int + 1));
                        }
                        j = j + 1;
                    }
                    proof {
                        assert(strong_response(req, data, b).take(req.len() as int)
                            =~= strong_response(req, data, b));
                    }
                    out.push(Message::StrongChecksums(response));
                    self.state = UpdaterState::AwaitingMatches;
                }
            },
            Message::Matches(pairs) => {
                if matches!(self.state, UpdaterState::AwaitingMatches) {
                    self.matches = pairs;
                    self.state = UpdaterState::Done;
                }
            },
            Message::Instructions(instrs) => {
                self.instructions = instrs;
            },
            _ => {},
        }
        out
    }
}

/// How many bytes a back-reference at source offset `o` copies: one block,
/// or what remains of the source file when that ends sooner.
pub open spec fn replicate_len(b: int, n: int, o: int) -> int {
    if o + b < n {
        b
    } else {
        n - o
    }
}

/// The reconstruction program the source emits for its confirmed matches,
/// greedy-leftmost: walk the pairs in ascending source offset, skip any whose
/// block starts before the cursor, bridge each gap with the literal source
/// bytes, back-reference each taken block, and close with the literal tail.
pub open spec fn greedy_instructions(
    pairs: Seq<(usize, usize)>,
    source: Seq<u8>,
    b: int,
    cursor: int,
) -> Seq<InstrModel>
    decreases pairs.len(),
{
    if pairs.len() == 0 {
        if cursor < source.len() {
            seq![
                InstrModel::NewData {
                    offset: cursor,
                    length: source.len() - cursor,
                    bytes: source.subrange(cursor, source.len() as int),
                },
            ]
        } else {
            Seq::empty()
        }
    } else {
        let u = pairs[0].0 as int;
        let o = pairs[0].1 as int;
        if o < cursor {
            greedy_instructions(pairs.drop_first(), source, b, cursor)
        } else {
            (if o > cursor {
                seq![
                    InstrModel::NewData {
                        offset: cursor,
                        length: o - cursor,
                        bytes: source.subrange(cursor, o),
                    },
                ]
            } else {
                Seq::empty()
            }) + seq![
                InstrModel::Replicate {
                    from_offset: u,
                    length: replicate_len(b, source.len() as int, o),
                    new_offset: o,
                },
            ] + greedy_instructions(
                pairs.drop_first(),
                source,
                b,
                o + replicate_len(b, source.len() as int, o),
            )
        }
    }
}

/// The pairs come in ascending source offset: what instruction synthesis
/// walks them by.
pub open spec fn pairs_sorted(pairs: Seq<(usize, usize)>) -> bool {
    forall|i: int, j: int|
        #![trigger pairs[i], pairs[j]]
        0 <= i < j < pairs.len() ==> pairs[i].1 <= pairs[j].1
}

/// Every pair's source offset lies inside the source file.
pub open spec fn pairs_in_range(pairs: Seq<(usize, usize)>, n: int) -> bool {
    forall|i: int| 0 <= i < pairs.len() ==> (#[trigger] pairs[i]).1 < n
}

/// Copies `source[from..to]` into a fresh vector: the literal bytes of one
/// NewData instruction.
fn copy_range(source: &Vec<u8>, from: usize, to: usize) -> (r: Vec<u8>)
    requires
        from <= to <= source@.len(),
    ensures
        r@ == source@.subrange(from as int, to as int),
{
    let mut out: Vec<u8> = Vec::new();
    let mut i: usize = from;
    proof {
        assert(source@.subrange(from as int, from as int) =~= Seq::<u8>::empty());
    }
    while i < to
        invariant
            from <= i <= to <= source@.len(),
            out@ == source@.subrange(from as int, i as int),
        decreases to - i,
    {
        out.push(source[i]);
        proof {
            assert(out@ =~= source@.subrange(from as int, i as int + 1));
        }
        i = i + 1;
    }
    out
}

/// Synthesizes the reconstruction program for the source file from the
/// confirmed pairs, greedy-leftmost as [`greedy_instructions`] lays it down.
pub fn build_instructions(
    pairs: &Vec<(usize, usize)>,
    source: &Vec<u8>,
    block_size: usize,
) -> (r: Vec<Instruction>)
    requires
        block_size >= 1,
        pairs_sorted(pairs@),
        pairs_in_range(pairs@, source@.len() as int),
    ensures
        r@.map_values(|x: Instruction| x@) == greedy_instructions(
            pairs@,
            source@,
            block_size as int,
            0,
        ),
{
    let n: usize = source.len();
    let ghost b = block_size as int;
    let mut out: Vec<Instruction> = Vec::new();
    let mut cursor: usize = 0;
    let mut idx: usize = 0;
    proof {
        assert(pairs@.skip(0) =~= pairs@);
        assert(out@.map_values(|x: Instruction| x@) =~= Seq::<InstrModel>::empty());
    }
    while idx < pairs.len()
        invariant
            n == source@.len(),
            b == block_size as int,
            b >= 1,
            pairs_sorted(pairs@),
            pairs_in_range(pairs@, n as int),
            idx <= pairs@.len(),
            cursor <= n,
            greedy_instructions(pairs@, source@, b, 0) == out@.map_values(|x: Instruction| x@)
                + greedy_instructions(pairs@.skip(idx as int), source@, b, cursor as int),
        decreases pairs@.len() - idx,
    {
        let pair = pairs[idx];
        let u: usize = pair.0;
        let o: usize = pair.1;
        let ghost pre_models = out@.map_values(|x: Instruction| x@);
        let ghost rest = pairs@.skip(idx as int);
        proof {
            assert(rest[0] == pairs@[idx as int]);
            assert(rest.drop_first() =~= pairs@.skip(idx as int + 1));
        }
        if o >= cursor {
            let ghost len_r_spec = replicate_len(b, n as int, o as int);
            if o > cursor {
                let bytes = copy_range(source, cursor, o);
                out.push(Instruction::NewData { offset: cursor, length: o - cursor, bytes });
            }
            let len_r: usize = if n - o > block_size {
                block_size
            } else {
                n - o
            };
            out.push(Instruction::Replicate { from_offset: u, length: len_r, new_offset: o });
            proof {
                assert(len_r == len_r_spec);
                let tail = greedy_instructions(rest.drop_first(), source@, b, o + len_r_spec);
                if o > cursor {
                    let gap = InstrModel::NewData {
                        offset: cursor as int,
                        length: o - cursor,
                        bytes: source@.subrange(cursor as int, o as int),
                    };
                    let repl = InstrModel::Replicate {
                        from_offset: u as int,
                        length: len_r_spec,
                        new_offset: o as int,
                    };
                    assert(greedy_instructions(rest, source@, b, cursor as int) =~= seq![gap] + seq![
                        repl,
                    ] + tail);
                    assert(out@.map_values(|x: Instruction| x@) =~= pre_models + seq![gap] + seq![
                        repl,
                    ]);
                    assert(pre_models + (seq![gap] + seq![repl] + tail) =~= (pre_models + seq![gap]
                        + seq![repl]) + tail);
                } else {
                    let repl = InstrModel::Replicate {
                        from_offset: u as int,
                        length: len_r_spec,
                        new_offset: o as int,
                    };
                    assert(greedy_instructions(rest, source@, b, cursor as int) =~= seq![repl]
                        + tail);
                    assert(out@.map_values(|x: Instruction| x@) =~= pre_models + seq![repl]);
                    assert(pre_models + (seq![repl] + tail) =~= (pre_models + seq![repl]) + tail);
                }
            }
            cursor = o + len_r;
        } else {
            proof {
                assert(greedy_instructions(rest, source@, b, cursor as int)
                    == greedy_instructions(rest.drop_first(), source@, b, cursor as int));
            }
        }
        idx = idx + 1;
    }
    proof {
        assert(pairs@.skip(pairs@.len() as int) =~= Seq::<(usize, usize)>::empty());
    }
    if cursor < n {
        let ghost pre_models = out@.map_values(|x: Instruction| x@);
        let bytes = copy_range(source, cursor, n);
        out.push(Instruction::NewData { offset: cursor, length: n - cursor, bytes });
        proof {
            let tail_model = InstrModel::NewData {
                offset: cursor as int,
                length: n - cursor,
                bytes: source@.subrange(cursor as int, n as int),
            };
            assert(out@.map_values(|x: Instruction| x@) =~= pre_models + seq![tail_model]);
            assert(greedy_instructions(
                Seq::<(usize, usize)>::empty(),
                source@,
                b,
                cursor as int,
            ) =~= seq![tail_model]);
        }
    } else {
        proof {
            assert(greedy_instructions(Seq::<(usize, usize)>::empty(), source@, b, cursor as int)
                =~= Seq::<InstrModel>::empty());
            assert(out@.map_values(|x: Instruction| x@) + Seq::<InstrModel>::empty()
                =~= out@.map_values(|x: Instruction| x@));
        }
    }
    out
}

/// A prefix one element longer holds a value exactly when the shorter prefix
/// holds it or the new element is it.
proof fn lemma_take_contains(s: Seq<u32>, k: int, y: u32)
    requires
        0 <= k < s.len(),
    ensures
        s.take(k + 1).contains(y) <==> (s.take(k).contains(y) || s[k] == y),
{
    if s.take(k + 1).contains(y) {
        let idx = choose|idx: int| 0 <= idx < s.take(k + 1).len() && #[trigger] s.take(k + 1)[idx] == y;
        if idx < k {
            assert(s.take(k)[idx] == y);
        }
    }
    if s.take(k).contains(y) {
        let idx = choose|idx: int| 0 <= idx < s.take(k).len() && #[trigger] s.take(k)[idx] == y;
        assert(s.take(k + 1)[idx] == y);
    }
    if s[k] == y {
        assert(s.take(k + 1)[k] == y);
    }
}

/// Collects the candidate updater offsets: probes the index with every
/// rolling checksum of the source file, marks each updater block a probe
/// returns, and lists the marked blocks' byte offsets in ascending order.
fn collect_candidates(
    table: &HashMap<u16, HashMap<u32, Vec<usize>>>,
    w_list: &Vec<u32>,
    rolling: &Vec<u32>,
    block_size: usize,
) -> (r: Vec<usize>)
    requires
        block_size >= 1,
        (w_list@.len() as int) * (block_size as int) <= usize::MAX,
        forall|w: u32| #[trigger] table_at(table@, w) == offsets_for(
            w_list@,
            w,
            block_size as int,
        ),
    ensures
        r@ == candidate_offsets(w_list@, rolling@, block_size as int),
{
    let ghost b = block_size as int;
    let ghost ws = w_list@;
    let w_len: usize = w_list.len();
    let mut hit: Vec<bool> = Vec::new();
    let mut f: usize = 0;
    while f < w_len
        invariant
            f <= w_len,
            hit@.len() == f,
            forall|i: int| 0 <= i < f ==> !hit@[i],
        decreases w_len - f,
    {
        hit.push(false);
        f = f + 1;
    }
    proof {
        assert(rolling@.take(0) =~= Seq::<u32>::empty());
    }
    let mut o: usize = 0;
    while o < rolling.len()
        invariant
            b == block_size as int,
            b >= 1,
            ws == w_list@,
            (ws.len() as int) * b <= usize::MAX,
            forall|w: u32| #[trigger] table_at(table@, w) == offsets_for(ws, w, b),
            w_len == ws.len(),
            hit@.len() == w_len,
            o <= rolling@.len(),
            forall|i: int| 0 <= i < w_len ==> hit@[i] == rolling@.take(o as int).contains(ws[i]),
        decreases rolling@.len() - o,
    {
        let probed = probe(table, rolling[o]);
        let ghost w_val = rolling@[o as int];
        let ghost cs = probed@;
        let ghost before_inner = hit@;
        let mut j: usize = 0;
        while j < probed.len()
            invariant
                b == block_size as int,
                b >= 1,
                ws == w_list@,
                (ws.len() as int) * b <= usize::MAX,
                cs == probed@,
                cs == offsets_for(ws, w_val, b),
                w_len == ws.len(),
                hit@.len() == w_len,
                o < rolling@.len(),
                w_val == rolling@[o as int],
                j <= cs.len(),
                forall|i: int|
                    0 <= i < w_len ==> hit@[i] == (rolling@.take(o as int).contains(ws[i])
                        || exists|j2: int|
                        #![trigger cs[j2]]
                        0 <= j2 < j && cs[j2] == i * b),
            decreases cs.len() - j,
        {
            let u: usize = probed[j];
            let ghost i0 = lemma_offsets_for_elem(ws, w_val, b, j as int);
            proof {
                vstd::arithmetic::div_mod::lemma_div_by_multiple(i0, b);
                assert(b * i0 == i0 * b) by (nonlinear_arith);
            }
            let block_idx: usize = u / block_size;
            let ghost before = hit@;
            assert(block_idx == i0);
            hit[block_idx] = true;
            proof {
                assert forall|i: int| 0 <= i < w_len implies hit@[i] == (rolling@.take(
                    o as int,
                ).contains(ws[i]) || exists|j2: int|
                    #![trigger cs[j2]]
                    0 <= j2 < j + 1 && cs[j2] == i * b) by {
                    if i == i0 {
                        assert(cs[j as int] == i * b);
                    } else {
                        assert(i * b != i0 * b) by (nonlinear_arith)
                            requires
                                i != i0,
                                b >= 1,
                        ;
                        assert(hit@[i] == before[i]);
                        if exists|j2: int|
                            #![trigger cs[j2]]
                            0 <= j2 < j + 1 && cs[j2] == i * b {
                            let j2 = choose|j2: int|
                                #![trigger cs[j2]]
                                0 <= j2 < j + 1 && cs[j2] == i * b;
                            if j2 == j {
                                assert(cs[j2] == i0 * b);
                                assert(false);
                            }
                        }
                    }
                }
            }
            j = j + 1;
        }
        proof {
            assert forall|i: int| 0 <= i < w_len implies hit@[i] == rolling@.take(
                o as int + 1,
            ).contains(ws[i]) by {
                assert(0 <= i * b && i * b <= (ws.len() as int) * b) by (nonlinear_arith)
                    requires
                        0 <= i < ws.len(),
                        b >= 1,
                ;
                lemma_take_contains(rolling@, o as int, ws[i]);
                if exists|j2: int|
                    #![trigger cs[j2]]
                    0 <= j2 < cs.len() && cs[j2] == i * b {
                    let j2 = choose|j2: int|
                        #![trigger cs[j2]]
                        0 <= j2 < cs.len() && cs[j2] == i * b;
                    let i1 = lemma_offsets_for_elem(ws, w_val, b, j2);
                    assert(i1 == i) by (nonlinear_arith)
                        requires
                            i1 * b == i * b,
                            b >= 1,
                    ;
                }
                if ws[i] == w_val {
                    lemma_offsets_for_contains(ws, b, i);
                    let j2 = choose|j2: int| 0 <= j2 < cs.len() && #[trigger] cs[j2] == ((i * b) as usize);
                    assert(cs[j2] == i * b);
                }
            }
        }
        o = o + 1;
    }
    proof {
        assert(rolling@.take(rolling@.len() as int) =~= rolling@);
        assert(ws.take(0) =~= Seq::<u32>::empty());
    }
    let mut request: Vec<usize> = Vec::new();
    let mut i: usize = 0;
    while i < w_len
        invariant
            b == block_size as int,
            b >= 1,
            ws == w_list@,
            (ws.len() as int) * b <= usize::MAX,
            w_len == ws.len(),
            hit@.len() == w_len,
            i <= w_len,
            forall|i2: int| 0 <= i2 < w_len ==> hit@[i2] == rolling@.contains(ws[i2]),
            request@ == candidate_offsets(ws.take(i as int), rolling@, b),
        decreases w_len - i,
    {
        proof {
            assert(0 <= (i as int) * b && (i as int) * b <= (ws.len() as int) * b)
                by (nonlinear_arith)
                requires
                    0 <= i < ws.len(),
                    b >= 1,
            ;
            assert(ws.take(i as int + 1).drop_last() =~= ws.take(i as int));
            assert(ws.take(i as int + 1).last() == ws[i as int]);
        }
        if hit[i] {
            request.push(i * block_size);
        }
        proof {
            assert(request@ =~= candidate_offsets(ws.take(i as int + 1), rolling@, b));
        }
        i = i + 1;
    }
    proof {
        assert(ws.take(ws.len() as int) =~= ws);
    }
    request
}

/// The strong hash the updater reported for offset `u`, scanning the
/// response front to back.
fn lookup_response(hashes: &Vec<(usize, u128)>, u: usize) -> (r: Option<u128>)
    ensures
        r == lookup_hash(hashes@, u),
{
    proof {
        assert(hashes@.skip(0) =~= hashes@);
    }
    let mut j: usize = 0;
    while j < hashes.len()
        invariant
            j <= hashes@.len(),
            lookup_hash(hashes@, u) == lookup_hash(hashes@.skip(j as int), u),
        decreases hashes@.len() - j,
    {
        let entry = hashes[j];
        proof {
            assert(hashes@.skip(j as int)[0] == hashes@[j as int]);
        }
        if entry.0 == u {
            return Some(entry.1);
        }
        proof {
            assert(hashes@.skip(j as int).drop_first() =~= hashes@.skip(j as int + 1));
        }
        j = j + 1;
    }
    proof {
        assert(hashes@.skip(hashes@.len() as int) =~= Seq::<(usize, u128)>::empty());
    }
    None
}

/// Confirms matches: for each source rolling offset, recomputes the strong
/// hash of the source block there and records every candidate updater offset
/// whose reported strong hash equals it.
fn confirm_matches(
    own_data: &Vec<u8>,
    rolling: &Vec<u32>,
    table: &HashMap<u16, HashMap<u32, Vec<usize>>>,
    hashes: &Vec<(usize, u128)>,
    strong: &StrongCheckSum,
) -> (r: Vec<(usize, usize)>)
    requires
        strong.spec_block_size() >= 1,
        rolling@.len() <= own_data@.len(),
    ensures
        r@ == confirmed_pairs(
            own_data@,
            rolling@,
            table@,
            hashes@,
            strong.spec_block_size() as int,
        ),
{
    let ghost b = strong.spec_block_size() as int;
    let ghost data = own_data@;
    let mut out: Vec<(usize, usize)> = Vec::new();
    proof {
        assert(rolling@.take(0) =~= Seq::<u32>::empty());
    }
    let mut o: usize = 0;
    while o < rolling.len()
        invariant
            b == strong.spec_block_size() as int,
            b >= 1,
            data == own_data@,
            rolling@.len() <= data.len(),
            o <= rolling@.len(),
            out@ == confirmed_pairs(data, rolling@.take(o as int), table@, hashes@, b),
        decreases rolling@.len() - o,
    {
        let probed = probe(table, rolling[o]);
        let ghost prev_out = out@;
        let ghost cs = probed@;
        let ghost so_spec = block_hash(data, o as int, b);
        if probed.len() > 0 {
            let so = strong.checksum_for_block(o, own_data.as_slice());
            proof {
                assert(cs.skip(0) =~= cs);
            }
            let mut j: usize = 0;
            while j < probed.len()
                invariant
                    b == strong.spec_block_size() as int,
                    data == own_data@,
                    cs == probed@,
                    so == so_spec,
                    j <= cs.len(),
                    out@ + pairs_for_offset(cs.skip(j as int), hashes@, so_spec, o) == prev_out
                        + pairs_for_offset(cs, hashes@, so_spec, o),
                decreases cs.len() - j,
            {
                let u: usize = probed[j];
                proof {
                    assert(cs.skip(j as int)[0] == cs[j as int]);
                    assert(cs.skip(j as int).drop_first() =~= cs.skip(j as int + 1));
                }
                let found = lookup_response(hashes, u);
                let ghost rest = pairs_for_offset(cs.skip(j as int + 1), hashes@, so_spec, o);
                let confirmed: bool = match found {
                    Some(h) => h == so,
                    None => false,
                };
                if confirmed {
                    let ghost before = out@;
                    out.push((u, o));
                    proof {
                        assert(out@ =~= before + seq![(u, o)]);
                        assert(before + (seq![(u, o)] + rest) =~= (before + seq![(u, o)]) + rest);
                    }
                } else {
                    proof {
                        assert(pairs_for_offset(cs.skip(j as int), hashes@, so_spec, o)
                            =~= Seq::<(usize, usize)>::empty() + rest);
                        assert(Seq::<(usize, usize)>::empty() + rest =~= rest);
                    }
                }
                j = j + 1;
            }
            proof {
                assert(cs.skip(cs.len() as int) =~= Seq::<usize>::empty());
                assert(out@ + Seq::<(usize, usize)>::empty() =~= out@);
            }
        } else {
            proof {
                assert(cs.len() == 0);
            }
        }
        proof {
            assert(rolling@.take(o as int + 1).drop_last() =~= rolling@.take(o as int));
            assert(rolling@.take(o as int + 1).last() == rolling@[o as int]);
            assert(out@ =~= confirmed_pairs(data, rolling@.take(o as int + 1), table@, hashes@, b));
        }
        o = o + 1;
    }
    proof {
        assert(rolling@.take(rolling@.len() as int) =~= rolling@);
    }
    out
}

/// Every pair one source offset contributes carries that source offset.
proof fn lemma_pairs_for_offset_snd(cands: Seq<usize>, hs: Seq<(usize, u128)>, so: u128, o: usize)
    ensures
        forall|i: int|
            0 <= i < pairs_for_offset(cands, hs, so, o).len() ==> (#[trigger] pairs_for_offset(
                cands,
                hs,
                so,
                o,
            )[i]).1 == o,
    decreases cands.len(),
{
    if cands.len() > 0 {
        lemma_pairs_for_offset_snd(cands.drop_first(), hs, so, o);
        let full = pairs_for_offset(cands, hs, so, o);
        let rest = pairs_for_offset(cands.drop_first(), hs, so, o);
        assert forall|i: int| 0 <= i < full.len() implies (#[trigger] full[i]).1 == o by {
            if lookup_hash(hs, cands[0]) == Some(so) {
                if i == 0 {
                    assert(full[0] == (cands[0], o));
                } else {
                    assert(full[i] == rest[i - 1]);
                }
            } else {
                assert(full =~= rest);
            }
        }
    }
}

/// The confirmed pairs come out ascending by source offset, and every source
/// offset among them indexes a rolling window.
proof fn lemma_confirmed_pairs_props(
    data: Seq<u8>,
    rolling: Seq<u32>,
    t: Map<u16, HashMap<u32, Vec<usize>>>,
    hs: Seq<(usize, u128)>,
    b: int,
)
    requires
        rolling.len() <= usize::MAX,
    ensures
        pairs_sorted(confirmed_pairs(data, rolling, t, hs, b)),
        forall|i: int|
            0 <= i < confirmed_pairs(data, rolling, t, hs, b).len() ==> (
            #[trigger] confirmed_pairs(data, rolling, t, hs, b)[i]).1 < rolling.len(),
    decreases rolling.len(),
{
    if rolling.len() > 0 {
        lemma_confirmed_pairs_props(data, rolling.drop_last(), t, hs, b);
        let o = (rolling.len() - 1) as usize;
        lemma_pairs_for_offset_snd(
            table_at(t, rolling.last()),
            hs,
            block_hash(data, rolling.len() - 1, b),
            o,
        );
        let full = confirmed_pairs(data, rolling, t, hs, b);
        let prefix = confirmed_pairs(data, rolling.drop_last(), t, hs, b);
        let tail = pairs_for_offset(
            table_at(t, rolling.last()),
            hs,
            block_hash(data, rolling.len() - 1, b),
            o,
        );
        assert forall|i: int| 0 <= i < full.len() implies (#[trigger] full[i]).1
            < rolling.len() by {
            if i < prefix.len() {
                assert(full[i] == prefix[i]);
            } else {
                assert(full[i] == tail[i - prefix.len()]);
            }
        }
        assert forall|i: int, j: int|
            #![trigger full[i], full[j]]
            0 <= i < j < full.len() implies full[i].1 <= full[j].1 by {
            if i < prefix.len() {
                assert(full[i] == prefix[i]);
            } else {
                assert(full[i] == tail[i - prefix.len()]);
            }
            if j < prefix.len() {
                assert(full[j] == prefix[j]);
            } else {
                assert(full[j] == tail[j - prefix.len()]);
            }
        }
    }
}

/// Where the source's state machine stands in the exchange.
#[derive(Debug, Clone, Copy, PartialEq, Eq, Structural)]
pub enum SourceState {
    AwaitingFileName,
    AwaitingWeakChecksums,
    AwaitingStrongChecksums,
    Done,
}

/// The source endpoint: holds the authoritative content, files the updater's
/// weak checksums in the match index, rolls its own bytes to find candidate
/// matches, confirms them against the updater's strong hashes, and emits the
/// match list and the reconstruction program.
#[derive(Debug)]
pub struct SourceSession {
    pub state: SourceState,
    pub checksum: CheckSum,
    pub file_path: String,
    pub own_data: Vec<u8>,
    pub remote_weak_checksums: Vec<u32>,
    pub rolling_checksums: Vec<u32>,
    pub hash_table: HashMap<u16, HashMap<u32, Vec<usize>>>,
}

impl SourceSession {
    /// The session's invariant: the checksum configuration is usable, and
    /// while an answer to the strong-checksum request is awaited, the rolling
    /// checksums and the index faithfully reflect the local file and the
    /// updater's blocks.
    pub open spec fn wf(self) -> bool {
        &&& self.checksum.valid()
        &&& self.state is AwaitingStrongChecksums ==> {
            &&& self.rolling_checksums@ == weak_rolling(
                self.own_data@,
                self.checksum.weak.spec_block_size() as int,
                self.checksum.weak.spec_modulus() as int,
            )
            &&& table_wf(self.hash_table@)
            &&& forall|w: u32| #[trigger] table_at(self.hash_table@, w) == offsets_for(
                self.remote_weak_checksums@,
                w,
                self.checksum.weak.spec_block_size() as int,
            )
        }
    }

    /// A fresh source session awaiting the updater's file name.
    pub fn new(config: &ChecksumConfig) -> (r: Self)
        requires
            config.valid(),
        ensures
            r.wf(),
            r.state is AwaitingFileName,
            r.checksum.weak.spec_block_size() == config.block_size,
            r.checksum.weak.spec_modulus() == config.modulus,
            r.checksum.strong.spec_block_size() == config.block_size,
            r.own_data@.len() == 0,
    {
        Self {
            state: SourceState::AwaitingFileName,
            checksum: CheckSum::with_config(config),
            file_path: String::new(),
            own_data: Vec::new(),
            remote_weak_checksums: Vec::new(),
            rolling_checksums: Vec::new(),
            hash_table: HashMap::new(),
        }
    }

    /// One step of the source's state machine. The file name is recorded;
    /// the weak checksums (with the local file's bytes, which the caller has
    /// read from the recorded path) compile the index, roll the local file
    /// and yield the strong-checksum request; the strong checksums yield the
    /// match list and the instruction list. A message the current state does
    /// not expect changes nothing; after the matches are sent the session is
    /// done and drains.
    pub fn handle_message(&mut self, msg: Message, local_data: Option<Vec<u8>>) -> (r: Vec<
        Message,
    >)
        requires
            old(self).wf(),
            old(self).state is AwaitingWeakChecksums && msg is WeakChecksums ==> {
                &&& local_data is Some
                &&& (msg->WeakChecksums_0@.len() as int) * (
                old(self).checksum.weak.spec_block_size() as int) <= usize::MAX
            },
        ensures
            final(self).wf(),
            final(self).checksum == old(self).checksum,
            old(self).state is AwaitingFileName && msg is FileName ==> {
                &&& final(self).state is AwaitingWeakChecksums
                &&& final(self).file_path@ == msg->FileName_0@
                &&& r@.len() == 0
            },
            old(self).state is AwaitingWeakChecksums && msg is WeakChecksums ==> {
                let b = old(self).checksum.weak.spec_block_size() as int;
                let m = old(self).checksum.weak.spec_modulus() as int;
                let data = local_data->0@;
                &&& final(self).state is AwaitingStrongChecksums
                &&& final(self).own_data@ == data
                &&& final(self).remote_weak_checksums@ == msg->WeakChecksums_0@
                &&& final(self).rolling_checksums@ == weak_rolling(data, b, m)
                &&& r@.len() == 1
                &&& r@[0] is StrongChecksumRequest
                &&& r@[0]->StrongChecksumRequest_0@ == candidate_offsets(
                    msg->WeakChecksums_0@,
                    weak_rolling(data, b, m),
                    b,
                )
            },
            old(self).state is AwaitingStrongChecksums && msg is StrongChecksums ==> {
                let b = old(self).checksum.weak.spec_block_size() as int;
                let pairs = confirmed_pairs(
                    old(self).own_data@,
                    old(self).rolling_checksums@,
                    old(self).hash_table@,
                    msg->StrongChecksums_0@,
                    b,
                );
                &&& final(self).state is Done
                &&& final(self).own_data == old(self).own_data
                &&& r@.len() == 2
                &&& r@[0] is Matches
                &&& r@[0]->Matches_0@ == pairs
                &&& r@[1] is Instructions
                &&& r@[1]->Instructions_0@.map_values(|x: Instruction| x@) == greedy_instructions(
                    pairs,
                    old(self).own_data@,
                    b,
                    0,
                )
            },
            !(old(self).state is AwaitingFileName && msg is FileName) && !(old(
                self,
            ).state is AwaitingWeakChecksums && msg is WeakChecksums) && !(old(
                self,
            ).state is AwaitingStrongChecksums && msg is StrongChecksums) ==> {
                &&& final(self).state == old(self).state
                &&& *final(self) == *old(self)
                &&& r@.len() == 0
            },
    {
        let mut out: Vec<Message> = Vec::new();
        match msg {
            Message::FileName(path) => {
                if matches!(self.state, SourceState::AwaitingFileName) {
                    self.file_path = path;
                    self.state = SourceState::AwaitingWeakChecksums;
                }
            },
            Message::WeakChecksums(w_list) => {
                if matches!(self.state, SourceState::AwaitingWeakChecksums) {
                    let data = match local_data {
                        Some(d) => d,
                        None => Vec::new(),
                    };
                    self.own_data = data;
                    let rolling = self.checksum.weak.checksums(self.own_data.as_slice());
                    let block_size = self.checksum.weak.block_size();
                    let table = build_index(&w_list, block_size);
                    let request = collect_candidates(&table, &w_list, &rolling, block_size);
                    self.rolling_checksums = rolling;
                    self.remote_weak_checksums = w_list;
                    self.hash_table = table;
                    self.state = SourceState::AwaitingStrongChecksums;
                    out.push(Message::StrongChecksumRequest(request));
                }
            },
            Message::StrongChecksums(list) => {
                if matches!(self.state, SourceState::AwaitingStrongChecksums) {
                    let pairs = confirm_matches(
                        &self.own_data,
                        &self.rolling_checksums,
                        &self.hash_table,
                        &list,
                        &self.checksum.strong,
                    );
                    let rolling_len: usize = self.rolling_checksums.len();
                    proof {
                        assert(self.rolling_checksums@.len() == rolling_len);
                        lemma_confirmed_pairs_props(
                            self.own_data@,
                            self.rolling_checksums@,
                            self.hash_table@,
                            list@,
                            self.checksum.strong.spec_block_size() as int,
                        );
                    }
                    let block_size = self.checksum.strong.block_size();
                    let instructions = build_instructions(&pairs, &self.own_data, block_size);
                    out.push(Message::Matches(pairs));
                    out.push(Message::Instructions(instructions));
                    self.state = SourceState::Done;
                }
            },
            _ => {},
        }
        out
    }
}

/// Whether an instruction list tiles exactly the target range `[start, end)`:
/// each instruction starts where the previous one ended, covers at least one
/// byte, and the last one ends at `end` — sorted, no gaps, no overlaps.
pub open spec fn instrs_tile(instrs: Seq<InstrModel>, start: int, end: int) -> bool
    decreases instrs.len(),
{
    if instrs.len() == 0 {
        start == end
    } else {
        match instrs[0] {
            InstrModel::NewData { offset, length, bytes } => {
                &&& offset == start
                &&& length >= 1
                &&& bytes.len() == length
                &&& start + length <= end
                &&& instrs_tile(instrs.drop_first(), start + length, end)
            },
            InstrModel::Replicate { from_offset, length, new_offset } => {
                &&& new_offset == start
                &&& length >= 1
                &&& start + length <= end
                &&& instrs_tile(instrs.drop_first(), start + length, end)
            },
        }
    }
}

/// Dropping the first pair keeps the rest sorted and in range.
proof fn lemma_pairs_drop_first(pairs: Seq<(usize, usize)>, n: int)
    requires
        pairs.len() > 0,
        pairs_sorted(pairs),
        pairs_in_range(pairs, n),
    ensures
        pairs_sorted(pairs.drop_first()),
        pairs_in_range(pairs.drop_first(), n),
{
    let rest = pairs.drop_first();
    assert forall|i: int, j: int|
        #![trigger rest[i], rest[j]]
        0 <= i < j < rest.len() implies rest[i].1 <= rest[j].1 by {
        assert(rest[i] == pairs[i + 1] && rest[j] == pairs[j + 1]);
    }
    assert forall|i: int| 0 <= i < rest.len() implies (#[trigger] rest[i]).1 < n by {
        assert(rest[i] == pairs[i + 1]);
    }
}

/// Law: the instruction list the source synthesizes tiles the source file
/// exactly — sorted by target offset, no gaps and no overlaps from the
/// cursor to the file's end.
pub proof fn lemma_greedy_tiles(pairs: Seq<(usize, usize)>, source: Seq<u8>, b: int, cursor: int)
    requires
        b >= 1,
        0 <= cursor <= source.len(),
        pairs_sorted(pairs),
        pairs_in_range(pairs, source.len() as int),
    ensures
        instrs_tile(greedy_instructions(pairs, source, b, cursor), cursor, source.len() as int),
    decreases pairs.len(),
{
    let n = source.len() as int;
    if pairs.len() == 0 {
        if cursor < n {
            let one = greedy_instructions(pairs, source, b, cursor);
            assert(one.drop_first() =~= Seq::<InstrModel>::empty());
            assert(instrs_tile(one.drop_first(), n, n));
        }
    } else {
        let o = pairs[0].1 as int;
        assert(pairs[0].1 < n);
        lemma_pairs_drop_first(pairs, n);
        if o < cursor {
            lemma_greedy_tiles(pairs.drop_first(), source, b, cursor);
        } else {
            let len_r = replicate_len(b, n, o);
            lemma_greedy_tiles(pairs.drop_first(), source, b, o + len_r);
            let repl = InstrModel::Replicate {
                from_offset: pairs[0].0 as int,
                length: len_r,
                new_offset: o,
            };
            let tail = greedy_instructions(pairs.drop_first(), source, b, o + len_r);
            assert(instrs_tile(tail, o + len_r, n));
            let with_repl = seq![repl] + tail;
            assert(with_repl.drop_first() =~= tail);
            assert(with_repl[0] == repl);
            assert(instrs_tile(with_repl, o, n));
            if o > cursor {
                let gap = InstrModel::NewData {
                    offset: cursor,
                    length: o - cursor,
                    bytes: source.subrange(cursor, o),
                };
                let whole = seq![gap] + seq![repl] + tail;
                assert(greedy_instructions(pairs, source, b, cursor) =~= whole);
                assert(whole.drop_first() =~= with_repl);
                assert(whole[0] == gap);
                assert(instrs_tile(whole, cursor, n));
            } else {
                assert(greedy_instructions(pairs, source, b, cursor) =~= with_repl);
            }
        }
    }
}

/// The bytes an instruction list lays down, in order: each literal's bytes,
/// each back-reference's range of the updater's local file.
pub open spec fn apply_model(instrs: Seq<InstrModel>, local: Seq<u8>) -> Seq<u8>
    decreases instrs.len(),
{
    if instrs.len() == 0 {
        Seq::empty()
    } else {
        (match instrs[0] {
            InstrModel::NewData { offset, length, bytes } => bytes,
            InstrModel::Replicate { from_offset, length, new_offset } => local.subrange(
                from_offset,
                from_offset + length,
            ),
        }) + apply_model(instrs.drop_first(), local)
    }
}

/// The contents an instruction list must carry for its application to
/// rebuild `source`: every literal holds the source bytes at its offset, and
/// every back-reference points at updater bytes equal to its source block.
pub open spec fn instrs_faithful(instrs: Seq<InstrModel>, local: Seq<u8>, source: Seq<u8>) -> bool {
    forall|i: int|
        0 <= i < instrs.len() ==> match #[trigger] instrs[i] {
            InstrModel::NewData { offset, length, bytes } => bytes == source.subrange(
                offset,
                offset + length,
            ),
            InstrModel::Replicate { from_offset, length, new_offset } => {
                &&& 0 <= from_offset
                &&& from_offset + length <= local.len()
                &&& local.subrange(from_offset, from_offset + length) == source.subrange(
                    new_offset,
                    new_offset + length,
                )
            },
        }
}

/// Law: applying a tiling, faithful instruction list lays down exactly the
/// source bytes from `start` to the end of the file.
pub proof fn lemma_apply_reconstructs(
    instrs: Seq<InstrModel>,
    local: Seq<u8>,
    source: Seq<u8>,
    start: int,
)
    requires
        0 <= start <= source.len(),
        instrs_tile(instrs, start, source.len() as int),
        instrs_faithful(instrs, local, source),
    ensures
        apply_model(instrs, local) == source.subrange(start, source.len() as int),
    decreases instrs.len(),
{
    let n = source.len() as int;
    if instrs.len() == 0 {
        assert(source.subrange(n, n) =~= Seq::<u8>::empty());
        assert(apply_model(instrs, local) =~= Seq::<u8>::empty());
    } else {
        let rest = instrs.drop_first();
        assert forall|i: int|
            0 <= i < rest.len() implies match #[trigger] rest[i] {
            InstrModel::NewData { offset, length, bytes } => bytes == source.subrange(
                offset,
                offset + length,
            ),
            InstrModel::Replicate { from_offset, length, new_offset } => {
                &&& 0 <= from_offset
                &&& from_offset + length <= local.len()
                &&& local.subrange(from_offset, from_offset + length) == source.subrange(
                    new_offset,
                    new_offset + length,
                )
            },
        } by {
            assert(rest[i] == instrs[i + 1]);
        }
        match instrs[0] {
            InstrModel::NewData { offset, length, bytes } => {
                lemma_apply_reconstructs(rest, local, source, start + length);
                assert(source.subrange(start, start + length) + source.subrange(start + length, n)
                    =~= source.subrange(start, n));
            },
            InstrModel::Replicate { from_offset, length, new_offset } => {
                lemma_apply_reconstructs(rest, local, source, start + length);
                assert(source.subrange(start, start + length) + source.subrange(start + length, n)
                    =~= source.subrange(start, n));
            },
        }
    }
}

/// The greedy synthesis only emits faithful instructions when every pair it
/// takes references updater bytes equal to its source block.
pub open spec fn pairs_faithful(
    pairs: Seq<(usize, usize)>,
    local: Seq<u8>,
    source: Seq<u8>,
    b: int,
) -> bool {
    forall|k: int|
        0 <= k < pairs.len() ==> {
            let u = (#[trigger] pairs[k]).0 as int;
            let o = pairs[k].1 as int;
            let len_r = replicate_len(b, source.len() as int, o);
            &&& u + len_r <= local.len()
            &&& local.subrange(u, u + len_r) == source.subrange(o, o + len_r)
        }
}

/// Every instruction the greedy synthesis emits is faithful: literals copy
/// the source, back-references come from faithful pairs.
proof fn lemma_greedy_faithful(
    pairs: Seq<(usize, usize)>,
    source: Seq<u8>,
    local: Seq<u8>,
    b: int,
    cursor: int,
)
    requires
        b >= 1,
        0 <= cursor <= source.len(),
        pairs_sorted(pairs),
        pairs_in_range(pairs, source.len() as int),
        pairs_faithful(pairs, local, source, b),
    ensures
        instrs_faithful(greedy_instructions(pairs, source, b, cursor), local, source),
    decreases pairs.len(),
{
    let n = source.len() as int;
    let whole = greedy_instructions(pairs, source, b, cursor);
    if pairs.len() == 0 {
    } else {
        let o = pairs[0].1 as int;
        lemma_pairs_drop_first(pairs, n);
        assert forall|k: int|
            0 <= k < pairs.drop_first().len() implies {
            let u = (#[trigger] pairs.drop_first()[k]).0 as int;
            let o2 = pairs.drop_first()[k].1 as int;
            let len_r = replicate_len(b, n, o2);
            &&& u + len_r <= local.len()
            &&& local.subrange(u, u + len_r) == source.subrange(o2, o2 + len_r)
        } by {
            assert(pairs.drop_first()[k] == pairs[k + 1]);
        }
        if o < cursor {
            lemma_greedy_faithful(pairs.drop_first(), source, local, b, cursor);
        } else {
            let len_r = replicate_len(b, n, o);
            lemma_greedy_faithful(pairs.drop_first(), source, local, b, o + len_r);
            let tail = greedy_instructions(pairs.drop_first(), source, b, o + len_r);
            let repl = InstrModel::Replicate {
                from_offset: pairs[0].0 as int,
                length: len_r,
                new_offset: o,
            };
            assert(pairs[0].0 as int + len_r <= local.len());
            if o > cursor {
                let gap = InstrModel::NewData {
                    offset: cursor,
                    length: o - cursor,
                    bytes: source.subrange(cursor, o),
                };
                assert(whole =~= seq![gap] + seq![repl] + tail);
                assert forall|i: int|
                    0 <= i < whole.len() implies match #[trigger] whole[i] {
                    InstrModel::NewData { offset, length, bytes } => bytes == source.subrange(
                        offset,
                        offset + length,
                    ),
                    InstrModel::Replicate { from_offset, length, new_offset } => {
                        &&& 0 <= from_offset
                        &&& from_offset + length <= local.len()
                        &&& local.subrange(from_offset, from_offset + length) == source.subrange(
                            new_offset,
                            new_offset + length,
                        )
                    },
                } by {
                    if i >= 2 {
                        assert(whole[i] == tail[i - 2]);
                    }
                }
            } else {
                assert(whole =~= seq![repl] + tail);
                assert forall|i: int|
                    0 <= i < whole.len() implies match #[trigger] whole[i] {
                    InstrModel::NewData { offset, length, bytes } => bytes == source.subrange(
                        offset,
                        offset + length,
                    ),
                    InstrModel::Replicate { from_offset, length, new_offset } => {
                        &&& 0 <= from_offset
                        &&& from_offset + length <= local.len()
                        &&& local.subrange(from_offset, from_offset + length) == source.subrange(
                            new_offset,
                            new_offset + length,
                        )
                    },
                } by {
                    if i >= 1 {
                        assert(whole[i] == tail[i - 1]);
                    }
                }
            }
        }
    }
}

/// Law: the reconstruction program synthesized from confirmed pairs tiles
/// `[0, source_len)` exactly, and applying it against the updater's local
/// bytes rebuilds the source file — provided every pair really references
/// identical bytes, which the strong checksum makes overwhelmingly likely
/// but cannot by itself guarantee.
pub proof fn lemma_instructions_reconstruct(
    pairs: Seq<(usize, usize)>,
    source: Seq<u8>,
    local: Seq<u8>,
    b: int,
)
    requires
        b >= 1,
        pairs_sorted(pairs),
        pairs_in_range(pairs, source.len() as int),
        pairs_faithful(pairs, local, source, b),
    ensures
        instrs_tile(greedy_instructions(pairs, source, b, 0), 0, source.len() as int),
        apply_model(greedy_instructions(pairs, source, b, 0), local) == source,
{
    lemma_greedy_tiles(pairs, source, b, 0);
    lemma_greedy_faithful(pairs, source, local, b, 0);
    lemma_apply_reconstructs(greedy_instructions(pairs, source, b, 0), local, source, 0);
    assert(source.subrange(0, source.len() as int) =~= source);
}

/// Appends `src[from..to]` to the output being assembled.
fn push_range(out: &mut Vec<u8>, src: &Vec<u8>, from: usize, to: usize)
    requires
        from <= to <= src@.len(),
    ensures
        final(out)@ == old(out)@ + src@.subrange(from as int, to as int),
{
    let ghost base = out@;
    let mut i: usize = from;
    proof {
        assert(base + src@.subrange(from as int, from as int) =~= base);
    }
    while i < to
        invariant
            from <= i <= to <= src@.len(),
            out@ == base + src@.subrange(from as int, i as int),
        decreases to - i,
    {
        out.push(src[i]);
        proof {
            assert(out@ =~= base + src@.subrange(from as int, i as int + 1));
        }
        i = i + 1;
    }
}

/// Applies a reconstruction program against the updater's local file: lays
/// the instructions' bytes down in order, literals as they stand and
/// back-references copied out of the local file.
pub fn apply_instructions(instrs: &Vec<Instruction>, local: &Vec<u8>) -> (r: Vec<u8>)
    requires
        forall|i: int|
            0 <= i < instrs@.len() ==> match (#[trigger] instrs@[i])@ {
                InstrModel::Replicate { from_offset, length, new_offset } => from_offset + length
                    <= local@.len(),
                InstrModel::NewData { offset, length, bytes } => true,
            },
    ensures
        r@ == apply_model(instrs@.map_values(|x: Instruction| x@), local@),
{
    let ghost models = instrs@.map_values(|x: Instruction| x@);
    let local_len: usize = local.len();
    let mut out: Vec<u8> = Vec::new();
    proof {
        assert(local@.len() == local_len);
        assert(models.skip(0) =~= models);
        assert(Seq::<u8>::empty() + apply_model(models, local@) =~= apply_model(models, local@));
    }
    let mut i: usize = 0;
    while i < instrs.len()
        invariant
            models == instrs@.map_values(|x: Instruction| x@),
            forall|k: int|
                0 <= k < instrs@.len() ==> match (#[trigger] instrs@[k])@ {
                    InstrModel::Replicate { from_offset, length, new_offset } => from_offset
                        + length <= local@.len(),
                    InstrModel::NewData { offset, length, bytes } => true,
                },
            i <= instrs@.len(),
            local@.len() <= usize::MAX,
            out@ + apply_model(models.skip(i as int), local@) == apply_model(models, local@),
        decreases instrs@.len() - i,
    {
        let ghost before = out@;
        let ghost rest = apply_model(models.skip(i as int + 1), local@);
        proof {
            assert(models.skip(i as int)[0] == models[i as int]);
            assert(models.skip(i as int).drop_first() =~= models.skip(i as int + 1));
            assert((instrs@[i as int])@ == models[i as int]);
        }
        let inst = &instrs[i];
        match inst {
            Instruction::NewData { offset, length, bytes } => {
                push_range(&mut out, bytes, 0, bytes.len());
                proof {
                    assert(bytes@.subrange(0, bytes@.len() as int) =~= bytes@);
                }
            },
            Instruction::Replicate { from_offset, length, new_offset } => {
                proof {
                    assert(models[i as int] == InstrModel::Replicate {
                        from_offset: *from_offset as int,
                        length: *length as int,
                        new_offset: *new_offset as int,
                    });
                    assert(*from_offset + *length <= local@.len());
                }
                push_range(&mut out, local, *from_offset, *from_offset + *length);
            },
        }
        proof {
            let chunk = match models[i as int] {
                InstrModel::NewData { offset, length, bytes } => bytes,
                InstrModel::Replicate { from_offset, length, new_offset } => local@.subrange(
                    from_offset,
                    from_offset + length,
                ),
            };
            assert(out@ == before + chunk);
            assert(apply_model(models.skip(i as int), local@) == chunk + rest);
            assert(before + (chunk + rest) =~= (before + chunk) + rest);
        }
        i = i + 1;
    }
    proof {
        assert(models.skip(models.len() as int) =~= Seq::<InstrModel>::empty());
        assert(out@ + Seq::<u8>::empty() =~= out@);
    }
    out
}

/// A block whose weak checksum occurs in the rolling stream stands in the
/// candidate request at its own byte offset.
proof fn lemma_candidate_offsets_contains(ws: Seq<u32>, rolling: Seq<u32>, b: int, i: int)
    requires
        b >= 1,
        0 <= i < ws.len(),
        (ws.len() as int) * b <= usize::MAX,
        rolling.contains(ws[i]),
    ensures
        candidate_offsets(ws, rolling, b).contains(((i * b) as usize)),
    decreases ws.len(),
{
    assert(0 <= i * b <= (ws.len() - 1) * b && (ws.len() - 1) * b <= (ws.len() as int) * b)
        by (nonlinear_arith)
        requires
            b >= 1,
            0 <= i < ws.len(),
    ;
    if i == ws.len() - 1 {
        let r = candidate_offsets(ws, rolling, b);
        assert(r[r.len() - 1] == ((i * b) as usize));
    } else {
        assert(ws.drop_last()[i] == ws[i]);
        lemma_candidate_offsets_contains(ws.drop_last(), rolling, b, i);
        let prefix = candidate_offsets(ws.drop_last(), rolling, b);
        let j = choose|j: int| 0 <= j < prefix.len() && #[trigger] prefix[j] == ((i * b) as usize);
        assert(candidate_offsets(ws, rolling, b)[j] == ((i * b) as usize));
    }
}

/// The updater's response reports, for each requested offset inside its
/// file, exactly the strong hash of the block there.
proof fn lemma_lookup_strong_response(req: Seq<usize>, data: Seq<u8>, b: int, u: usize)
    requires
        req.contains(u),
        u <= data.len(),
    ensures
        lookup_hash(strong_response(req, data, b), u) == Some(block_hash(data, u as int, b)),
    decreases req.len(),
{
    let hs = strong_response(req, data, b);
    if req[0] == u {
        assert(hs[0] == (u, block_hash(data, u as int, b)));
    } else {
        let j = choose|j: int| 0 <= j < req.len() && #[trigger] req[j] == u;
        assert(req.drop_first()[j - 1] == u);
        assert(req.drop_first().contains(u));
        lemma_lookup_strong_response(req.drop_first(), data, b, u);
        assert(hs.drop_first() =~= strong_response(req.drop_first(), data, b));
    }
}

/// A candidate whose reported hash equals the source block's hash stands in
/// the pairs that source offset contributes.
proof fn lemma_pairs_for_offset_contains(
    cands: Seq<usize>,
    hs: Seq<(usize, u128)>,
    so: u128,
    o: usize,
    u: usize,
)
    requires
        cands.contains(u),
        lookup_hash(hs, u) == Some(so),
    ensures
        pairs_for_offset(cands, hs, so, o).contains((u, o)),
    decreases cands.len(),
{
    let full = pairs_for_offset(cands, hs, so, o);
    if cands[0] == u {
        assert(full[0] == (u, o));
    } else {
        let j = choose|j: int| 0 <= j < cands.len() && #[trigger] cands[j] == u;
        assert(cands.drop_first()[j - 1] == u);
        assert(cands.drop_first().contains(u));
        lemma_pairs_for_offset_contains(cands.drop_first(), hs, so, o, u);
        let rest = pairs_for_offset(cands.drop_first(), hs, so, o);
        let k = choose|k: int| 0 <= k < rest.len() && #[trigger] rest[k] == (u, o);
        if lookup_hash(hs, cands[0]) == Some(so) {
            assert(full[k + 1] == (u, o));
        } else {
            assert(full =~= rest);
        }
    }
}

/// A pair contributed at rolling offset `o` stands in the confirmed list.
proof fn lemma_confirmed_pairs_contains(
    data: Seq<u8>,
    rolling: Seq<u32>,
    t: Map<u16, HashMap<u32, Vec<usize>>>,
    hs: Seq<(usize, u128)>,
    b: int,
    o: int,
    p: (usize, usize),
)
    requires
        0 <= o < rolling.len(),
        pairs_for_offset(
            table_at(t, rolling[o]),
            hs,
            block_hash(data, o, b),
            o as usize,
        ).contains(p),
    ensures
        confirmed_pairs(data, rolling, t, hs, b).contains(p),
    decreases rolling.len(),
{
    let full = confirmed_pairs(data, rolling, t, hs, b);
    let prefix = confirmed_pairs(data, rolling.drop_last(), t, hs, b);
    let tail = pairs_for_offset(
        table_at(t, rolling.last()),
        hs,
        block_hash(data, rolling.len() - 1, b),
        (rolling.len() - 1) as usize,
    );
    if o == rolling.len() - 1 {
        let k = choose|k: int| 0 <= k < tail.len() && #[trigger] tail[k] == p;
        assert(full[prefix.len() + k] == p);
    } else {
        assert(rolling.drop_last()[o] == rolling[o]);
        lemma_confirmed_pairs_contains(data, rolling.drop_last(), t, hs, b, o, p);
        let k = choose|k: int| 0 <= k < prefix.len() && #[trigger] prefix[k] == p;
        assert(full[k] == p);
    }
}

/// Law: when both sides hold the same bytes, every full block is confirmed
/// against itself. Probing with block `i`'s own weak checksum finds it, the
/// strong hashes agree because the bytes do, and the pair `(i*b, i*b)`
/// stands in the confirmed list the source computes.
pub proof fn lemma_identity_block_matched(data: Seq<u8>, t: Map<u16, HashMap<u32, Vec<usize>>>, b: int, m: int, i: int)
    requires
        b >= 1,
        m >= 1,
        data.len() + b <= usize::MAX,
        forall|w: u32| #[trigger] table_at(t, w) == offsets_for(weak_blocks(data, b, m), w, b),
        0 <= i,
        i * b + b <= data.len(),
    ensures
        confirmed_pairs(
            data,
            weak_rolling(data, b, m),
            t,
            strong_response(
                candidate_offsets(weak_blocks(data, b, m), weak_rolling(data, b, m), b),
                data,
                b,
            ),
            b,
        ).contains((((i * b) as usize), ((i * b) as usize))),
{
    let n = data.len() as int;
    let ws = weak_blocks(data, b, m);
    let rolling = weak_rolling(data, b, m);
    let req = candidate_offsets(ws, rolling, b);
    let hs = strong_response(req, data, b);
    assert((i + 1) * b == i * b + b) by (nonlinear_arith);
    assert(0 <= i * b && i * b + b <= n);
    // block i is a block of the buffer, and its index is in range
    vstd::arithmetic::div_mod::lemma_fundamental_div_mod(n - 1, b);
    assert(i <= (n - 1) / b) by {
        vstd::arithmetic::div_mod::lemma_div_is_ordered(i * b, n - 1, b);
        vstd::arithmetic::div_mod::lemma_div_by_multiple(i, b);
        assert(b * i == i * b) by (nonlinear_arith);
    }
    assert(i < block_count(n, b));
    assert((ws.len() as int) * b <= n - 1 + b) by {
        assert(ws.len() as int == (n - 1) / b + 1);
        assert(((n - 1) / b + 1) * b == b * ((n - 1) / b) + b) by (nonlinear_arith);
        assert(0 <= (n - 1) % b) by {
            vstd::arithmetic::div_mod::lemma_mod_bound(n - 1, b);
        }
    }
    // the full block's weak checksum equals the rolling value at its offset
    assert(block_end(i, b, n) == i * b + b);
    assert(rolling_window(n, b) == b);
    assert(i * b < rolling_count(n, b));
    assert(rolling[i * b] == ws[i]);
    assert(rolling.contains(ws[i]));
    // so its offset is requested, answered, and confirmed against itself
    lemma_candidate_offsets_contains(ws, rolling, b, i);
    lemma_lookup_strong_response(req, data, b, ((i * b) as usize));
    lemma_offsets_for_contains(ws, b, i);
    assert(table_at(t, rolling[i * b]).contains(((i * b) as usize)));
    lemma_pairs_for_offset_contains(
        table_at(t, rolling[i * b]),
        hs,
        block_hash(data, i * b, b),
        ((i * b) as usize),
        ((i * b) as usize),
    );
    lemma_confirmed_pairs_contains(data, rolling, t, hs, b, i * b, (((i * b) as usize), ((i * b) as usize)));
}

/// Whether an instruction is a back-reference laying `length` bytes down at
/// `start` of the rebuilt file.
pub open spec fn is_block_replicate(m: InstrModel, start: int, length: int) -> bool {
    match m {
        InstrModel::Replicate { from_offset, length: l, new_offset } => new_offset == start && l
            == length,
        InstrModel::NewData { offset, length: l, bytes } => false,
    }
}

/// Whether an instruction is the literal tail: the source bytes from `start`
/// to the end of the file.
pub open spec fn is_literal_tail(m: InstrModel, start: int, source: Seq<u8>) -> bool {
    match m {
        InstrModel::NewData { offset, length, bytes } => offset == start && length == source.len()
            - start && bytes == source.subrange(start, source.len() as int),
        InstrModel::Replicate { from_offset, length, new_offset } => false,
    }
}

/// When every remaining pair starts before the cursor, the greedy synthesis
/// emits nothing but the literal tail.
proof fn lemma_greedy_all_skipped(pairs: Seq<(usize, usize)>, source: Seq<u8>, b: int, cursor: int)
    requires
        b >= 1,
        0 <= cursor <= source.len(),
        forall|i: int| 0 <= i < pairs.len() ==> (#[trigger] pairs[i]).1 < cursor,
    ensures
        greedy_instructions(pairs, source, b, cursor) == (if cursor < source.len() {
            seq![
                InstrModel::NewData {
                    offset: cursor,
                    length: source.len() - cursor,
                    bytes: source.subrange(cursor, source.len() as int),
                },
            ]
        } else {
            Seq::<InstrModel>::empty()
        }),
    decreases pairs.len(),
{
    if pairs.len() > 0 {
        let rest = pairs.drop_first();
        assert forall|i: int| 0 <= i < rest.len() implies (#[trigger] rest[i]).1 < cursor by {
            assert(rest[i] == pairs[i + 1]);
        }
        lemma_greedy_all_skipped(rest, source, b, cursor);
    }
}

/// The greedy synthesis over sorted pairs that include one at every full
/// block offset from block `k0` on: a back-reference of one block size per
/// full block, in order, then the literal tail if the file ends mid-block.
proof fn lemma_greedy_block_shape(pairs: Seq<(usize, usize)>, source: Seq<u8>, b: int, k0: int)
    requires
        b >= 1,
        0 <= k0,
        k0 * b <= source.len(),
        pairs_sorted(pairs),
        forall|i: int| 0 <= i < pairs.len() ==> (#[trigger] pairs[i]).1 + b <= source.len(),
        forall|k: int|
            #![trigger k * b]
            k0 <= k && k * b + b <= source.len() ==> exists|i: int|
                0 <= i < pairs.len() && (#[trigger] pairs[i]).1 == k * b,
    ensures
        ({
            let n = source.len() as int;
            let out = greedy_instructions(pairs, source, b, k0 * b);
            let q = (n - k0 * b) / b;
            &&& out.len() == q + (if k0 * b + q * b < n {
                1int
            } else {
                0int
            })
            &&& (forall|j: int| 0 <= j < q ==> is_block_replicate(#[trigger] out[j], (k0 + j) * b, b))
            &&& (k0 * b + q * b < n ==> is_literal_tail(out[q], k0 * b + q * b, source))
        }),
    decreases pairs.len(),
{
    let n = source.len() as int;
    let c = k0 * b;
    let q = (n - c) / b;
    vstd::arithmetic::div_mod::lemma_fundamental_div_mod(n - c, b);
    vstd::arithmetic::div_mod::lemma_mod_bound(n - c, b);
    if n - c < b {
        vstd::arithmetic::div_mod::lemma_fundamental_div_mod_converse(n - c, b, 0, n - c);
        assert(q == 0);
        assert(q * b == 0) by (nonlinear_arith)
            requires
                q == 0,
        ;
        assert forall|i: int| 0 <= i < pairs.len() implies (#[trigger] pairs[i]).1 < c by {
            assert(pairs[i].1 + b <= n);
        }
        lemma_greedy_all_skipped(pairs, source, b, c);
    } else {
        assert(q >= 1 && q * b <= n - c && b * q == q * b) by (nonlinear_arith)
            requires
                b >= 1,
                n - c >= b,
                n - c == b * q + (n - c) % b,
                0 <= (n - c) % b < b,
        ;
        assert(k0 * b + b <= source.len());
        assert(exists|i: int| 0 <= i < pairs.len() && (#[trigger] pairs[i]).1 == k0 * b);
        let wi = choose|i: int| 0 <= i < pairs.len() && (#[trigger] pairs[i]).1 == k0 * b;
        let rest = pairs.drop_first();
        assert forall|i: int, j: int|
            #![trigger rest[i], rest[j]]
            0 <= i < j < rest.len() implies rest[i].1 <= rest[j].1 by {
            assert(rest[i] == pairs[i + 1] && rest[j] == pairs[j + 1]);
        }
        assert forall|i: int| 0 <= i < rest.len() implies (#[trigger] rest[i]).1 + b
            <= source.len() by {
            assert(rest[i] == pairs[i + 1]);
        }
        if (pairs[0].1 as int) < c {
            // this pair starts before the cursor and is skipped
            assert forall|k: int|
                #![trigger k * b]
                k0 <= k && k * b + b <= source.len() implies exists|i: int|
                    0 <= i < rest.len() && (#[trigger] rest[i]).1 == k * b by {
                assert(k * b >= k0 * b) by (nonlinear_arith)
                    requires
                        k >= k0,
                        b >= 1,
                ;
                let i0 = choose|i: int| 0 <= i < pairs.len() && (#[trigger] pairs[i]).1 == k * b;
                assert(i0 != 0);
                assert(rest[i0 - 1] == pairs[i0]);
            }
            lemma_greedy_block_shape(rest, source, b, k0);
            assert(greedy_instructions(pairs, source, b, c) == greedy_instructions(
                rest,
                source,
                b,
                c,
            ));
        } else {
            // the first pair sits exactly at the cursor's block
            assert(pairs[0].1 <= pairs[wi].1) by {
                if wi > 0 {
                    assert(pairs_sorted(pairs));
                }
            }
            assert(pairs[0].1 as int == c);
            let len_r = replicate_len(b, n, c);
            assert(len_r == b);
            assert((k0 + 1) * b == c + b) by (nonlinear_arith)
                requires
                    c == k0 * b,
            ;
            assert forall|k: int|
                #![trigger k * b]
                k0 + 1 <= k && k * b + b <= source.len() implies exists|i: int|
                    0 <= i < rest.len() && (#[trigger] rest[i]).1 == k * b by {
                assert(k * b >= (k0 + 1) * b) by (nonlinear_arith)
                    requires
                        k >= k0 + 1,
                        b >= 1,
                ;
                let i0 = choose|i: int| 0 <= i < pairs.len() && (#[trigger] pairs[i]).1 == k * b;
                assert(i0 != 0);
                assert(rest[i0 - 1] == pairs[i0]);
            }
            lemma_greedy_block_shape(rest, source, b, k0 + 1);
            let out_rest = greedy_instructions(rest, source, b, c + b);
            let q_rest = (n - (c + b)) / b;
            assert(n - c - b == b * (q - 1) + (n - c) % b) by (nonlinear_arith)
                requires
                    n - c == b * q + (n - c) % b,
            ;
            vstd::arithmetic::div_mod::lemma_fundamental_div_mod_converse(
                n - c - b,
                b,
                q - 1,
                (n - c) % b,
            );
            assert(q_rest == q - 1);
            let repl = InstrModel::Replicate {
                from_offset: pairs[0].0 as int,
                length: b,
                new_offset: c,
            };
            let out = greedy_instructions(pairs, source, b, c);
            assert(out =~= seq![repl] + out_rest);
            assert((k0 + 1) * b + q_rest * b == c + q * b) by (nonlinear_arith)
                requires
                    q_rest == q - 1,
                    (k0 + 1) * b == c + b,
            ;
            assert forall|j: int| 0 <= j < q implies is_block_replicate(
                #[trigger] out[j],
                (k0 + j) * b,
                b,
            ) by {
                if j == 0 {
                    assert(out[0] == repl);
                    assert((k0 + 0) * b == c) by (nonlinear_arith)
                        requires
                            c == k0 * b,
                    ;
                } else {
                    assert(out[j] == out_rest[j - 1]);
                    assert(is_block_replicate(out_rest[j - 1], (k0 + 1 + (j - 1)) * b, b));
                    assert((k0 + 1 + (j - 1)) * b == (k0 + j) * b) by (nonlinear_arith);
                }
            }
            if c + q * b < n {
                assert(out[q] == out_rest[q_rest]);
            }
        }
    }
}

/// Law (match detection under identity): when both sides hold the same
/// bytes, the synthesized program back-references one block per full block
/// of the file, in order, and the only literal bytes are the partial tail —
/// a file shorter than one block travels as a single back-reference, an
/// empty file as nothing.
pub proof fn lemma_identity_instruction_shape(
    data: Seq<u8>,
    t: Map<u16, HashMap<u32, Vec<usize>>>,
    b: int,
    m: int,
)
    requires
        b >= 1,
        m >= 1,
        data.len() + b <= usize::MAX,
        forall|w: u32| #[trigger] table_at(t, w) == offsets_for(weak_blocks(data, b, m), w, b),
    ensures
        ({
            let rolling = weak_rolling(data, b, m);
            let hs = strong_response(
                candidate_offsets(weak_blocks(data, b, m), rolling, b),
                data,
                b,
            );
            let pairs = confirmed_pairs(data, rolling, t, hs, b);
            let out = greedy_instructions(pairs, data, b, 0);
            let n = data.len() as int;
            &&& n == 0 ==> out.len() == 0
            &&& 0 < n < b ==> out.len() == 1 && is_block_replicate(out[0], 0, n)
            &&& n >= b ==> {
                let q = n / b;
                &&& out.len() == q + (if q * b < n {
                    1int
                } else {
                    0int
                })
                &&& (forall|j: int| 0 <= j < q ==> is_block_replicate(#[trigger] out[j], j * b, b))
                &&& (q * b < n ==> is_literal_tail(out[q], q * b, data))
            }
        }),
{
    let n = data.len() as int;
    let ws = weak_blocks(data, b, m);
    let rolling = weak_rolling(data, b, m);
    let req = candidate_offsets(ws, rolling, b);
    let hs = strong_response(req, data, b);
    let pairs = confirmed_pairs(data, rolling, t, hs, b);
    let out = greedy_instructions(pairs, data, b, 0);
    if n == 0 {
        assert(rolling.len() == 0);
        assert(pairs =~= Seq::<(usize, usize)>::empty());
    } else if n < b {
        // one partial block, one window over the whole file: they agree
        vstd::arithmetic::div_mod::lemma_fundamental_div_mod_converse(n - 1, b, 0, n - 1);
        assert(block_count(n, b) == 1);
        assert(rolling.len() == 1 && ws.len() == 1);
        assert(block_end(0, b, n) == n);
        assert(rolling[0] == ws[0]);
        assert(rolling.contains(ws[0]));
        // the request names offset 0, the response answers it
        assert(ws.drop_last() =~= Seq::<u32>::empty());
        assert(candidate_offsets(ws.drop_last(), rolling, b) =~= Seq::<usize>::empty());
        assert((ws.len() - 1) * b == 0) by (nonlinear_arith)
            requires
                ws.len() == 1,
        ;
        assert(req =~= seq![0usize]);
        assert(hs.len() == 1 && hs[0] == (0usize, block_hash(data, 0, b)));
        // probing with the window's checksum returns the block, confirmed
        assert(offsets_for(ws.drop_last(), rolling[0], b) =~= Seq::<usize>::empty());
        assert(table_at(t, rolling[0]) =~= seq![0usize]);
        let so = block_hash(data, 0, b);
        assert(lookup_hash(hs, 0usize) == Some(so));
        assert(seq![0usize].drop_first() =~= Seq::<usize>::empty());
        assert(pairs_for_offset(Seq::<usize>::empty(), hs, so, 0usize) =~= Seq::<(usize, usize)>::empty());
        assert(pairs_for_offset(seq![0usize], hs, so, 0usize) =~= seq![(0usize, 0usize)]);
        assert(rolling.drop_last() =~= Seq::<u32>::empty());
        assert(confirmed_pairs(data, rolling.drop_last(), t, hs, b) =~= Seq::<(usize, usize)>::empty());
        assert(pairs =~= seq![(0usize, 0usize)]);
        // greedy turns the single pair into one back-reference for the file
        assert(replicate_len(b, n, 0) == n);
        let repl = InstrModel::Replicate { from_offset: 0, length: n, new_offset: 0 };
        assert(pairs.drop_first() =~= Seq::<(usize, usize)>::empty());
        assert(greedy_instructions(pairs.drop_first(), data, b, n) =~= Seq::<InstrModel>::empty());
        assert(out =~= seq![repl]);
    } else {
        let rolling_len: int = rolling.len() as int;
        assert(rolling_len == n - b + 1);
        lemma_confirmed_pairs_props(data, rolling, t, hs, b);
        assert forall|i: int| 0 <= i < pairs.len() implies (#[trigger] pairs[i]).1 + b <= n by {
            assert(pairs[i].1 < rolling_len);
        }
        assert forall|k: int|
            #![trigger k * b]
            0 <= k && k * b + b <= n implies exists|i: int|
                0 <= i < pairs.len() && (#[trigger] pairs[i]).1 == k * b by {
            lemma_identity_block_matched(data, t, b, m, k);
            let p = (((k * b) as usize), ((k * b) as usize));
            let i0 = choose|i: int| 0 <= i < pairs.len() && #[trigger] pairs[i] == p;
            assert(pairs[i0].1 == k * b);
        }
        assert(0 * b == 0) by (nonlinear_arith);
        lemma_greedy_block_shape(pairs, data, b, 0);
        assert((n - 0 * b) / b == n / b);
        assert forall|j: int| 0 <= j < n / b implies is_block_replicate(
            #[trigger] out[j],
            j * b,
            b,
        ) by {
            assert(is_block_replicate(out[j], (0 + j) * b, b));
            assert((0 + j) * b == j * b);
        }
    }
}

/// Copies a vector of weak checksums so that one copy can travel in a
/// message while the session keeps the other.
fn clone_u32s(v: &Vec<u32>) -> (r: Vec<u32>)
    ensures
        r@ == v@,
{
    let mut out: Vec<u32> = Vec::new();
    let mut i: usize = 0;
    while i < v.len()
        invariant
            i <= v@.len(),
            out@ == v@.take(i as int),
        decreases v@.len() - i,
    {
        out.push(v[i]);
        proof {
            assert(out@ =~= v@.take(i as int + 1));
        }
        i = i + 1;
    }
    proof {
        assert(v@.take(v@.len() as int) =~= v@);
    }
    out
}

} // verus!
