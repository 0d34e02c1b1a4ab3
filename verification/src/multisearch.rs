//! The multi-resolution match index: a 16-bit bucket hash over the 32-bit
//! weak checksum, a nested map from bucket to weak checksum to the offsets of
//! the blocks that bear it, and the lookup that walks bucket, weak value and
//! strong verification in turn, never skipping a level.

use vstd::prelude::*;
use std::collections::HashMap;
use crate::CheckSum;
use crate::Checksums;

verus! {

broadcast use vstd::std_specs::hash::group_hash_axioms;

/// The 16-bit bucket of a 32-bit weak checksum: its high half folded onto
/// its low half spread by an odd multiplier.
pub open spec fn spec_weak_hash(v: u32) -> u16 {
    (((v >> 16) ^ (((v & 0xffff) * 62171) as u32)) & 0xffff) as u16
}

/// Computes the 16-bit bucket of a weak checksum.
#[inline(always)]
pub fn weak_hash(v: u32) -> (r: u16)
    ensures
        r == spec_weak_hash(v),
{
    let low: u32 = v & 0xffff;
    proof {
        assert(v & 0xffff <= 0xffff) by (bit_vector);
    }
    let prod: u32 = low * 62171;
    let x: u32 = (v >> 16) ^ prod;
    proof {
        assert(x & 0xffff <= 0xffff) by (bit_vector);
    }
    (x & 0xffff) as u16
}

/// Every weak checksum sits under its own bucket: the invariant of the
/// two outer levels of the index.
pub open spec fn table_wf(t: Map<u16, HashMap<u32, Vec<usize>>>) -> bool {
    forall|h: u16, w: u32|
        t.contains_key(h) && #[trigger] t[h]@.contains_key(w) ==> spec_weak_hash(w) == h
}

/// Whether the index holds an entry for the weak checksum `w`, under its
/// bucket.
pub open spec fn table_has(t: Map<u16, HashMap<u32, Vec<usize>>>, w: u32) -> bool {
    t.contains_key(spec_weak_hash(w)) && t[spec_weak_hash(w)]@.contains_key(w)
}

/// The block offsets the index holds for the weak checksum `w`; empty when
/// it holds none.
pub open spec fn table_at(t: Map<u16, HashMap<u32, Vec<usize>>>, w: u32) -> Seq<usize> {
    if table_has(t, w) {
        t[spec_weak_hash(w)]@[w]@
    } else {
        Seq::empty()
    }
}

/// The offsets at which `w` occurs in the checksum sequence `ws`, each
/// position scaled by `scale` bytes, in ascending order.
pub open spec fn offsets_for(ws: Seq<u32>, w: u32, scale: int) -> Seq<usize>
    decreases ws.len(),
{
    if ws.len() == 0 {
        Seq::empty()
    } else {
        offsets_for(ws.drop_last(), w, scale) + if ws.last() == w {
            seq![(((ws.len() - 1) * scale) as usize)]
        } else {
            Seq::empty()
        }
    }
}

/// Every offset the index derives from `ws` marks a position that really
/// bears the probed checksum: this returns that position.
pub proof fn lemma_offsets_for_elem(ws: Seq<u32>, w: u32, scale: int, j: int) -> (i: int)
    requires
        scale >= 0,
        (ws.len() as int) * scale <= usize::MAX,
        0 <= j < offsets_for(ws, w, scale).len(),
    ensures
        0 <= i < ws.len(),
        ws[i] == w,
        offsets_for(ws, w, scale)[j] == i * scale,
    decreases ws.len(),
{
    assert((ws.len() - 1) * scale <= (ws.len() as int) * scale && 0 <= (ws.len() - 1) * scale)
        by (nonlinear_arith)
        requires
            scale >= 0,
            ws.len() >= 1,
    ;
    let prefix = offsets_for(ws.drop_last(), w, scale);
    if j < prefix.len() {
        let i = lemma_offsets_for_elem(ws.drop_last(), w, scale, j);
        assert(offsets_for(ws, w, scale)[j] == prefix[j]);
        i
    } else {
        assert(ws.last() == w);
        assert(offsets_for(ws, w, scale)[j] == (ws.len() - 1) * scale);
        ws.len() - 1
    }
}

/// The round trip through the index: a checksum that stands at position `i`
/// of `ws` is found again at offset `i * scale` when probed with its own
/// value.
pub proof fn lemma_offsets_for_contains(ws: Seq<u32>, scale: int, i: int)
    requires
        scale >= 0,
        0 <= i < ws.len(),
        (ws.len() as int) * scale <= usize::MAX,
    ensures
        offsets_for(ws, ws[i], scale).contains((i * scale) as usize),
    decreases ws.len(),
{
    assert(0 <= i * scale <= (ws.len() - 1) * scale && (ws.len() - 1) * scale <= (ws.len() as int)
        * scale) by (nonlinear_arith)
        requires
            scale >= 0,
            0 <= i < ws.len(),
    ;
    if i == ws.len() - 1 {
        let r = offsets_for(ws, ws[i], scale);
        assert(r[r.len() - 1] == (i * scale) as usize);
    } else {
        lemma_offsets_for_contains(ws.drop_last(), scale, i);
        let prefix = offsets_for(ws.drop_last(), ws[i], scale);
        let j = choose|j: int| 0 <= j < prefix.len() && prefix[j] == (i * scale) as usize;
        assert(ws.drop_last()[i] == ws[i]);
        assert(offsets_for(ws, ws[i], scale)[j] == (i * scale) as usize);
    }
}

/// Law: the index answers its own checksums. An index built over `ws` at
/// scale `scale`, probed with the checksum at position `i`, returns a list
/// holding `i * scale`.
pub proof fn lemma_index_round_trip(
    t: Map<u16, HashMap<u32, Vec<usize>>>,
    ws: Seq<u32>,
    scale: int,
    i: int,
)
    requires
        scale >= 0,
        0 <= i < ws.len(),
        (ws.len() as int) * scale <= usize::MAX,
        forall|w: u32| #[trigger] table_at(t, w) == offsets_for(ws, w, scale),
    ensures
        table_at(t, ws[i]).contains(((i * scale) as usize)),
{
    lemma_offsets_for_contains(ws, scale, i);
}

/// Builds the three-level index over a sequence of weak checksums: position
/// `i` is filed under bucket and weak value at byte offset `i * scale`.
pub fn build_index(weaks: &Vec<u32>, scale: usize) -> (t: HashMap<u16, HashMap<u32, Vec<usize>>>)
    requires
        (weaks@.len() as int) * (scale as int) <= usize::MAX,
    ensures
        table_wf(t@),
        forall|w: u32| #[trigger] table_at(t@, w) == offsets_for(weaks@, w, scale as int),
{
    let mut table: HashMap<u16, HashMap<u32, Vec<usize>>> = HashMap::new();
    let ghost ws = weaks@;
    let mut i: usize = 0;
    assert forall|w: u32| #[trigger] table_at(table@, w) == offsets_for(
        ws.take(0),
        w,
        scale as int,
    ) by {
        assert(ws.take(0) =~= Seq::<u32>::empty());
    }
    while i < weaks.len()
        invariant
            ws == weaks@,
            i <= ws.len(),
            (ws.len() as int) * (scale as int) <= usize::MAX,
            table_wf(table@),
            forall|w: u32| #[trigger] table_at(table@, w) == offsets_for(
                ws.take(i as int),
                w,
                scale as int,
            ),
        decreases ws.len() - i,
    {
        let ghost old_table = table@;
        let w = weaks[i];
        let h = weak_hash(w);
        proof {
            assert(0 <= (i as int) * (scale as int) && (i as int) * (scale as int) <= (
            ws.len() as int) * (scale as int)) by (nonlinear_arith)
                requires
                    0 <= i < ws.len(),
                    scale >= 0,
            ;
        }
        let offset: usize = i * scale;
        let mut inner: HashMap<u32, Vec<usize>> = match table.remove(&h) {
            Some(m) => m,
            None => HashMap::new(),
        };
        let ghost old_inner = inner@;
        let mut list: Vec<usize> = match inner.remove(&w) {
            Some(l) => l,
            None => Vec::new(),
        };
        proof {
            assert(list@ =~= table_at(old_table, w));
        }
        list.push(offset);
        inner.insert(w, list);
        table.insert(h, inner);
        proof {
            let prev = ws.take(i as int);
            let cur = ws.take(i as int + 1);
            assert(cur.drop_last() =~= prev);
            assert(cur.last() == w);
            assert forall|w2: u32| #[trigger] table_at(table@, w2) == offsets_for(
                cur,
                w2,
                scale as int,
            ) by {
                if w2 == w {
                    assert(table_at(table@, w2) =~= offsets_for(prev, w2, scale as int) + seq![
                        offset,
                    ]);
                } else if spec_weak_hash(w2) == h {
                    assert(table_at(table@, w2) == table_at(old_table, w2));
                    assert(offsets_for(cur, w2, scale as int) =~= offsets_for(
                        prev,
                        w2,
                        scale as int,
                    ));
                } else {
                    assert(table_at(table@, w2) == table_at(old_table, w2));
                    assert(offsets_for(cur, w2, scale as int) =~= offsets_for(
                        prev,
                        w2,
                        scale as int,
                    ));
                }
            }
        }
        i = i + 1;
    }
    proof {
        assert(ws.take(ws.len() as int) =~= ws);
    }
    table
}

/// Looks a weak checksum up in the index: bucket first, then the weak value,
/// so that the common no-match path costs one bucket lookup. Returns the
/// stored offsets, or nothing.
pub fn probe(table: &HashMap<u16, HashMap<u32, Vec<usize>>>, w: u32) -> (r: Vec<usize>)
    ensures
        r@ == table_at(table@, w),
{
    let h = weak_hash(w);
    if !table.contains_key(&h) {
        return Vec::new();
    }
    let inner = table.get(&h).unwrap();
    if !inner.contains_key(&w) {
        return Vec::new();
    }
    let stored = inner.get(&w).unwrap();
    let mut out: Vec<usize> = Vec::new();
    let mut j: usize = 0;
    while j < stored.len()
        invariant
            j <= stored@.len(),
            out@ == stored@.take(j as int),
        decreases stored@.len() - j,
    {
        out.push(stored[j]);
        proof {
            assert(out@ =~= stored@.take(j as int + 1));
        }
        j = j + 1;
    }
    proof {
        assert(stored@.take(stored@.len() as int) =~= stored@);
    }
    out
}

/// The first stored offset whose strong hash equals `s`, walking the
/// candidate list front to back; nothing when none matches.
pub open spec fn first_confirmed(cands: Seq<usize>, strongs: Seq<u128>, s: u128) -> Option<usize>
    decreases cands.len(),
{
    if cands.len() == 0 {
        None
    } else if strongs[cands[0] as int] == s {
        Some(cands[0])
    } else {
        first_confirmed(cands.drop_first(), strongs, s)
    }
}

/// What [`Matcher::find_matches`] returns: for each incoming pair in turn,
/// the position paired with the first stored offset that passes all three
/// levels (bucket, weak value, strong hash), where there is one.
pub open spec fn spec_find_matches(
    pairs: Seq<(u32, u128)>,
    t: Map<u16, HashMap<u32, Vec<usize>>>,
    strongs: Seq<u128>,
) -> Seq<(usize, usize)>
    decreases pairs.len(),
{
    if pairs.len() == 0 {
        Seq::empty()
    } else {
        spec_find_matches(pairs.drop_last(), t, strongs) + match first_confirmed(
            table_at(t, pairs.last().0),
            strongs,
            pairs.last().1,
        ) {
            Some(o) => seq![(((pairs.len() - 1) as usize), o)],
            None => Seq::empty(),
        }
    }
}

/// Finds, for a stream of incoming checksum pairs, which positions of
/// previously compiled data they match: the three-level index answers weak
/// probes, and the stored strong hashes confirm or refute each candidate.
#[derive(Debug)]
pub struct Matcher {
    pub hash_table: HashMap<u16, HashMap<u32, Vec<usize>>>,
    pub strong_hashes: Vec<u128>,
    pub checksum: CheckSum,
}

impl Matcher {
    /// The structural facts the methods rely on: buckets are honest, and
    /// every stored offset indexes into the strong-hash table.
    pub open spec fn wf(self) -> bool {
        &&& table_wf(self.hash_table@)
        &&& forall|w: u32, j: int|
            0 <= j < table_at(self.hash_table@, w).len() ==> #[trigger] table_at(
                self.hash_table@,
                w,
            )[j] < self.strong_hashes@.len()
    }

    pub fn new() -> (r: Self)
        ensures
            r.wf(),
            r.hash_table@ == Map::<u16, HashMap<u32, Vec<usize>>>::empty(),
            r.strong_hashes@ == Seq::<u128>::empty(),
            r.checksum.valid(),
            r.checksum.weak.spec_modulus() == 0x10000u32,
            r.checksum.weak.spec_block_size() == 1000usize,
            r.checksum.strong.spec_block_size() == 1000usize,
    {
        Self::default()
    }

    /// Compiles the index from the data's rolling composite checksums: the
    /// weak half of the pair at offset `k` is filed in the index under
    /// offset `k`, and the strong half is stored at position `k` for
    /// verification.
    pub fn compile(&mut self, data: &[u8])
        requires
            old(self).checksum.valid(),
        ensures
            final(self).wf(),
            final(self).checksum == old(self).checksum,
            final(self).strong_hashes@ == old(self).checksum.rolling_spec(data@).map_values(
                |p: (u32, u128)| p.1,
            ),
            forall|w: u32| #[trigger] table_at(final(self).hash_table@, w) == offsets_for(
                old(self).checksum.rolling_spec(data@).map_values(|p: (u32, u128)| p.0),
                w,
                1,
            ),
    {
        let ghost pairs = self.checksum.rolling_spec(data@);
        let checksums = self.checksum.checksums(data);
        let mut weaks: Vec<u32> = Vec::new();
        let mut strongs: Vec<u128> = Vec::new();
        let mut k: usize = 0;
        while k < checksums.len()
            invariant
                pairs == checksums@,
                k <= pairs.len(),
                weaks@.len() == k,
                strongs@.len() == k,
                forall|j: int| 0 <= j < k ==> weaks@[j] == pairs[j].0,
                forall|j: int| 0 <= j < k ==> strongs@[j] == pairs[j].1,
            decreases pairs.len() - k,
        {
            let pair = checksums[k];
            weaks.push(pair.0);
            strongs.push(pair.1);
            k = k + 1;
        }
        proof {
            assert(weaks@ =~= pairs.map_values(|p: (u32, u128)| p.0));
            assert(strongs@ =~= pairs.map_values(|p: (u32, u128)| p.1));
        }
        let table = build_index(&weaks, 1);
        self.hash_table = table;
        self.strong_hashes = strongs;
        proof {
            assert forall|w: u32, j: int|
                0 <= j < table_at(self.hash_table@, w).len() implies #[trigger] table_at(
                self.hash_table@,
                w,
            )[j] < self.strong_hashes@.len() by {
                let i = lemma_offsets_for_elem(weaks@, w, 1, j);
            }
        }
    }

    /// Walks the incoming checksum pairs in order: for each, probes the index
    /// by bucket and weak value, confirms candidates against the stored
    /// strong hashes, and records `(incoming position, first confirmed
    /// offset)` for those that pass.
    pub fn find_matches(&self, hashes_by_block: &Vec<(u32, u128)>) -> (r: Vec<(usize, usize)>)
        requires
            self.wf(),
        ensures
            r@ == spec_find_matches(hashes_by_block@, self.hash_table@, self.strong_hashes@),
    {
        let ghost pairs = hashes_by_block@;
        let ghost t = self.hash_table@;
        let mut matches: Vec<(usize, usize)> = Vec::new();
        proof {
            assert(pairs.take(0) =~= Seq::<(u32, u128)>::empty());
        }
        let mut p: usize = 0;
        while p < hashes_by_block.len()
            invariant
                self.wf(),
                pairs == hashes_by_block@,
                t == self.hash_table@,
                p <= pairs.len(),
                matches@ == spec_find_matches(pairs.take(p as int), t, self.strong_hashes@),
            decreases pairs.len() - p,
        {
            let pair = hashes_by_block[p];
            let weak = pair.0;
            let strong = pair.1;
            let h = weak_hash(weak);
            let mut hit: Option<usize> = None;
            if self.hash_table.contains_key(&h) {
                let inner = self.hash_table.get(&h).unwrap();
                if inner.contains_key(&weak) {
                    let cands = inner.get(&weak).unwrap();
                    proof {
                        assert(table_has(t, weak));
                        assert(cands@ == table_at(t, weak));
                        assert forall|j: int| 0 <= j < cands@.len() implies #[trigger] cands@[j]
                            < self.strong_hashes@.len() by {
                            assert(table_at(t, weak)[j] < self.strong_hashes@.len());
                        }
                    }
                    hit = first_match(cands, &self.strong_hashes, strong);
                } else {
                    proof {
                        assert(!table_has(t, weak));
                    }
                }
            } else {
                proof {
                    assert(!table_has(t, weak));
                }
            }
            match hit {
                Some(o) => matches.push((p, o)),
                None => (),
            }
            proof {
                assert(pairs.take(p as int + 1).drop_last() =~= pairs.take(p as int));
                assert(pairs.take(p as int + 1).last() == pairs[p as int]);
                assert(matches@ =~= spec_find_matches(
                    pairs.take(p as int + 1),
                    t,
                    self.strong_hashes@,
                ));
            }
            p = p + 1;
        }
        proof {
            assert(pairs.take(pairs.len() as int) =~= pairs);
        }
        matches
    }
}

impl Default for Matcher {
    fn default() -> (r: Self)
        ensures
            r.wf(),
            r.hash_table@ == Map::<u16, HashMap<u32, Vec<usize>>>::empty(),
            r.strong_hashes@ == Seq::<u128>::empty(),
            r.checksum.valid(),
            r.checksum.weak.spec_modulus() == 0x10000u32,
            r.checksum.weak.spec_block_size() == 1000usize,
            r.checksum.strong.spec_block_size() == 1000usize,
    {
        Self { hash_table: HashMap::new(), strong_hashes: Vec::new(), checksum: CheckSum::new() }
    }
}

/// Scans a candidate list front to back for the first offset whose stored
/// strong hash equals `s`.
fn first_match(cands: &Vec<usize>, strongs: &Vec<u128>, s: u128) -> (r: Option<usize>)
    requires
        forall|j: int| 0 <= j < cands@.len() ==> #[trigger] cands@[j] < strongs@.len(),
    ensures
        r == first_confirmed(cands@, strongs@, s),
{
    proof {
        assert(cands@.skip(0) =~= cands@);
    }
    let mut j: usize = 0;
    while j < cands.len()
        invariant
            j <= cands@.len(),
            forall|jj: int| 0 <= jj < cands@.len() ==> #[trigger] cands@[jj] < strongs@.len(),
            first_confirmed(cands@, strongs@, s) == first_confirmed(
                cands@.skip(j as int),
                strongs@,
                s,
            ),
        decreases cands@.len() - j,
    {
        let o = cands[j];
        proof {
            assert(cands@.skip(j as int)[0] == cands@[j as int]);
        }
        if strongs[o] == s {
            return Some(o);
        }
        proof {
            assert(cands@.skip(j as int).drop_first() =~= cands@.skip(j as int + 1));
        }
        j = j + 1;
    }
    proof {
        assert(cands@.skip(cands@.len() as int) =~= Seq::<usize>::empty());
    }
    None
}

} // verus!
