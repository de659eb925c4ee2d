//! The sorted-string table (SST): an immutable run of encoded blocks, a
//! block-metadata index, and a trailer pointing at the index.
//!
//! File layout: `| block #1 | ... | block #N | meta section | meta_offset u32le |`
//! where each meta entry is `block_offset u32le | first_key_len u16le | first_key`.

use vstd::prelude::*;

use crate::block::{
    block_entries, block_wf, copy_range, le16, le32, lemma_le16_val, lemma_le32_val, push_u16,
    push_u32, spec_decode, u16_at, u16_val, u32_at, u32_val, append_bytes, Block, Error,
};
use crate::entries::{cat_blocks, map_of_entries, strictly_sorted};
use crate::keys::{key_cmp, lex_le, lex_lt, KeyOrd};

verus! {

/// The index entry for one data block: where it starts and its first key.
pub struct BlockMeta {
    pub offset: usize,
    pub first_key: Vec<u8>,
}

/// The abstract content of a meta entry.
pub open spec fn meta_view(m: BlockMeta) -> (int, Seq<u8>) {
    (m.offset as int, m.first_key@)
}

/// The abstract content of a meta index.
pub open spec fn metas_view(ms: Seq<BlockMeta>) -> Seq<(int, Seq<u8>)> {
    ms.map_values(|m: BlockMeta| meta_view(m))
}

/// Every meta entry fits the on-wire widths and carries a non-empty key.
pub open spec fn metas_wf(ms: Seq<(int, Seq<u8>)>) -> bool {
    forall|i: int|
        0 <= i < ms.len() ==> 0 <= (#[trigger] ms[i]).0 <= 0xFFFF_FFFF && 0 < ms[i].1.len() <= 0xFFFF
}

/// The encoding of a meta index: per entry, offset, key length, key.
pub open spec fn metas_bytes(ms: Seq<(int, Seq<u8>)>) -> Seq<u8>
    decreases ms.len(),
{
    if ms.len() == 0 {
        Seq::empty()
    } else {
        le32(ms[0].0 as u32) + le16(ms[0].1.len() as u16) + ms[0].1 + metas_bytes(ms.drop_first())
    }
}

/// Appending one meta entry appends its bytes.
pub proof fn lemma_metas_bytes_push(ms: Seq<(int, Seq<u8>)>, m: (int, Seq<u8>))
    ensures
        metas_bytes(ms.push(m)) == metas_bytes(ms) + (le32(m.0 as u32) + le16(m.1.len() as u16)
            + m.1),
    decreases ms.len(),
{
    let enc = le32(m.0 as u32) + le16(m.1.len() as u16) + m.1;
    if ms.len() == 0 {
        assert(ms.push(m)[0] == m);
        assert(ms.push(m).drop_first() =~= ms);
        assert(metas_bytes(ms.push(m)) == enc + metas_bytes(ms));
        assert(enc + metas_bytes(ms) =~= metas_bytes(ms) + enc);
    } else {
        assert(ms.push(m)[0] == ms[0]);
        assert(ms.push(m).drop_first() =~= ms.drop_first().push(m));
        lemma_metas_bytes_push(ms.drop_first(), m);
        let head = le32(ms[0].0 as u32) + le16(ms[0].1.len() as u16) + ms[0].1;
        assert(metas_bytes(ms.push(m)) == head + (metas_bytes(ms.drop_first()) + enc));
        assert(head + (metas_bytes(ms.drop_first()) + enc) =~= metas_bytes(ms) + enc);
    }
}

/// The mathematical parse of a meta section: the sequence of (offset,
/// first key) pairs, or nothing when the section is malformed.
#[verifier::opaque]
pub open spec fn parse_metas(bytes: Seq<u8>) -> Option<Seq<(int, Seq<u8>)>>
    decreases bytes.len(),
{
    if bytes.len() == 0 {
        Some(Seq::empty())
    } else if bytes.len() < 6 {
        None
    } else {
        let off = u32_val(bytes[0], bytes[1], bytes[2], bytes[3]);
        let klen = u16_val(bytes[4], bytes[5]);
        if klen == 0 || bytes.len() < 6 + klen {
            None
        } else {
            let key = bytes.subrange(6, 6 + klen);
            match parse_metas(bytes.skip(6 + klen)) {
                None => None,
                Some(rest) => Some(seq![(off, key)] + rest),
            }
        }
    }
}

/// A well-formed meta index parses back from its encoding.
pub proof fn lemma_metas_round_trip(ms: Seq<(int, Seq<u8>)>)
    requires
        metas_wf(ms),
    ensures
        parse_metas(metas_bytes(ms)) == Some(ms),
    decreases ms.len(),
{
    reveal(parse_metas);
    let bytes = metas_bytes(ms);
    if ms.len() == 0 {
        assert(bytes =~= Seq::<u8>::empty());
        assert(Some(ms) == Some(Seq::<(int, Seq<u8>)>::empty()));
    } else {
        let off = ms[0].0;
        let key = ms[0].1;
        let klen = key.len() as int;
        let head = le32(off as u32) + le16(klen as u16) + key;
        assert(bytes == head + metas_bytes(ms.drop_first()));
        assert(head.len() == 6 + klen);
        lemma_le32_val(off as u32);
        lemma_le16_val(klen as u16);
        assert(bytes[0] == le32(off as u32)[0] && bytes[1] == le32(off as u32)[1] && bytes[2]
            == le32(off as u32)[2] && bytes[3] == le32(off as u32)[3]);
        assert(u32_val(bytes[0], bytes[1], bytes[2], bytes[3]) == off);
        assert(bytes[4] == le16(klen as u16)[0] && bytes[5] == le16(klen as u16)[1]);
        assert(u16_val(bytes[4], bytes[5]) == klen);
        assert(bytes.subrange(6, 6 + klen) =~= key);
        assert(bytes.skip(6 + klen) =~= metas_bytes(ms.drop_first()));
        lemma_metas_round_trip(ms.drop_first());
        assert(seq![(off, key)] + ms.drop_first() =~= ms);
    }
}

/// Encode a meta index onto the end of a buffer.
pub fn encode_block_meta(block_meta: &Vec<BlockMeta>, buf: &mut Vec<u8>)
    requires
        metas_wf(metas_view(block_meta@)),
    ensures
        final(buf)@ == old(buf)@ + metas_bytes(metas_view(block_meta@)),
{
    let ghost ms = metas_view(block_meta@);
    let mut i: usize = 0;
    while i < block_meta.len()
        invariant
            0 <= i <= block_meta@.len(),
            ms == metas_view(block_meta@),
            metas_wf(ms),
            buf@ == old(buf)@ + metas_bytes(ms.take(i as int)),
        decreases block_meta@.len() - i,
    {
        proof {
            assert(ms[i as int] == meta_view(block_meta@[i as int]));
        }
        let m = &block_meta[i];
        push_u32(buf, m.offset as u32);
        push_u16(buf, m.first_key.len() as u16);
        append_bytes(buf, &m.first_key);
        proof {
            lemma_metas_bytes_push(ms.take(i as int), ms[i as int]);
            assert(ms.take(i as int).push(ms[i as int]) =~= ms.take(i + 1));
            assert(buf@ == old(buf)@ + metas_bytes(ms.take(i + 1)));
        }
        i = i + 1;
    }
    proof {
        assert(ms.take(ms.len() as int) =~= ms);
    }
}

/// Decode a meta index from a buffer.  Succeeds exactly when the whole
/// buffer parses as a run of meta entries.
pub fn decode_block_meta(buf: &Vec<u8>) -> (r: Result<Vec<BlockMeta>, Error>)
    ensures
        r is Ok <==> parse_metas(buf@) is Some,
        r matches Ok(ms) ==> parse_metas(buf@) == Some(metas_view(ms@)) && metas_wf(
            metas_view(ms@),
        ),
        r is Err ==> r == Result::<Vec<BlockMeta>, Error>::Err(Error::Corruption),
{
    proof {
        reveal(parse_metas);
    }
    let n = buf.len();
    let mut out: Vec<BlockMeta> = Vec::new();
    let mut pos: usize = 0;
    proof {
        assert(buf@.skip(0) =~= buf@);
        assert(metas_view(out@) =~= Seq::<(int, Seq<u8>)>::empty());
        if parse_metas(buf@) is Some {
            let rest = parse_metas(buf@)->Some_0;
            assert(metas_view(out@) + rest =~= rest);
        }
    }
    while pos < n
        invariant
            0 <= pos <= n,
            n == buf@.len(),
            metas_wf(metas_view(out@)),
            parse_metas(buf@) is Some <==> parse_metas(buf@.skip(pos as int)) is Some,
            parse_metas(buf@.skip(pos as int)) matches Some(rest) ==> parse_metas(buf@) == Some(
                metas_view(out@) + rest,
            ),
        decreases n - pos,
    {
        proof {
            reveal(parse_metas);
        }
        let ghost tailb = buf@.skip(pos as int);
        if n - pos < 6 {
            return Err(Error::Corruption);
        }
        let off = u32_at(buf, pos);
        let klen = u16_at(buf, pos + 4) as usize;
        proof {
            assert(tailb[0] == buf@[pos as int] && tailb[1] == buf@[pos + 1] && tailb[2] == buf@[pos
                + 2] && tailb[3] == buf@[pos + 3] && tailb[4] == buf@[pos + 4] && tailb[5] == buf@[
            pos + 5]);
        }
        if klen == 0 || n - pos - 6 < klen {
            return Err(Error::Corruption);
        }
        let key = copy_range(buf, pos + 6, pos + 6 + klen);
        proof {
            assert(key@ =~= tailb.subrange(6, 6 + klen as int));
            assert(buf@.skip(pos + 6 + klen) =~= tailb.skip(6 + klen as int));
        }
        let ghost old_out = out@;
        out.push(BlockMeta { offset: off as usize, first_key: key });
        pos = pos + 6 + klen;
        proof {
            assert(metas_view(out@) =~= metas_view(old_out).push(
                (off as int, tailb.subrange(6, 6 + klen as int)),
            ));
            assert(metas_view(old_out) + (seq![(off as int, tailb.subrange(6, 6 + klen as int))])
                =~= metas_view(out@));
            if parse_metas(buf@.skip(pos as int)) is Some {
                let rest = parse_metas(buf@.skip(pos as int))->Some_0;
                assert(parse_metas(tailb) == Some(
                    seq![(off as int, tailb.subrange(6, 6 + klen as int))] + rest,
                ));
                assert(metas_view(old_out) + (seq![
                    (off as int, tailb.subrange(6, 6 + klen as int)),
                ] + rest) =~= metas_view(out@) + rest);
            }
        }
    }
    proof {
        reveal(parse_metas);
        assert(buf@.skip(n as int) =~= Seq::<u8>::empty());
        assert(parse_metas(buf@.skip(n as int)) == Some(Seq::<(int, Seq<u8>)>::empty()));
        assert(metas_view(out@) + Seq::<(int, Seq<u8>)>::empty() =~= metas_view(out@));
    }
    Ok(out)
}


/// An immutable sorted-string table held with its full encoded bytes, its
/// decoded meta index, and the offset where the meta section starts.
pub struct SsTable {
    pub id: usize,
    pub data: Vec<u8>,
    pub block_metas: Vec<BlockMeta>,
    pub block_meta_offset: usize,
}

impl SsTable {
    /// The number of data blocks.
    pub open spec fn nb(&self) -> int {
        self.block_metas@.len() as int
    }

    /// Where block `i` starts in the file.
    pub open spec fn block_lo(&self, i: int) -> int {
        self.block_metas@[i].offset as int
    }

    /// Where block `i` ends in the file.
    pub open spec fn block_hi(&self, i: int) -> int {
        if i == self.nb() - 1 {
            self.block_meta_offset as int
        } else {
            self.block_metas@[i + 1].offset as int
        }
    }

    /// The parse of block `i`'s bytes.
    pub open spec fn block_pair(&self, i: int) -> Option<(Seq<u8>, Seq<u16>)> {
        spec_decode(self.data@.subrange(self.block_lo(i), self.block_hi(i)))
    }

    /// The entries of block `i`.
    pub open spec fn block_es(&self, i: int) -> Seq<(Seq<u8>, Seq<u8>)> {
        block_entries(self.block_pair(i)->Some_0.0, self.block_pair(i)->Some_0.1)
    }

    /// The per-block entry runs.
    pub open spec fn blocks(&self) -> Seq<Seq<(Seq<u8>, Seq<u8>)>> {
        Seq::new(self.nb() as nat, |i: int| self.block_es(i))
    }

    /// All entries of the table, in key order.
    pub open spec fn entries(&self) -> Seq<(Seq<u8>, Seq<u8>)> {
        cat_blocks(self.blocks())
    }

    /// The first key of block `i`.
    pub open spec fn fk(&self, i: int) -> Seq<u8> {
        self.block_metas@[i].first_key@
    }

    /// Table invariant.
    pub open spec fn wf(&self) -> bool {
        sst_wf(*self)
    }
}

impl View for SsTable {
    type V = Map<Seq<u8>, Seq<u8>>;

    open spec fn view(&self) -> Map<Seq<u8>, Seq<u8>> {
        map_of_entries(self.entries())
    }
}

/// The table invariant: at least one block; the trailer points at the meta
/// section, which encodes the meta index; the blocks tile the data region
/// and each decodes to a non-empty sorted run; each meta entry carries its
/// block's first key; block runs ascend across block boundaries.
#[verifier::opaque]
pub open spec fn sst_wf(t: SsTable) -> bool {
    &&& 1 <= t.block_metas@.len()
    &&& t.block_meta_offset + 4 <= t.data@.len() <= 0xFFFF_FFFF
    &&& metas_wf(metas_view(t.block_metas@))
    &&& parse_metas(t.data@.subrange(t.block_meta_offset as int, t.data@.len() - 4)) == Some(
        metas_view(t.block_metas@),
    )
    &&& t.data@.subrange(t.data@.len() - 4, t.data@.len() as int) == le32(
        t.block_meta_offset as u32,
    )
    &&& t.block_lo(0) == 0
    &&& forall|i: int|
        0 <= i < t.nb() ==> #[trigger] t.block_lo(i) < t.block_hi(i) <= t.block_meta_offset
    &&& forall|i: int| 0 <= i < t.nb() ==> (#[trigger] t.block_pair(i)) is Some
    &&& forall|i: int| 0 <= i < t.nb() ==> (#[trigger] t.block_es(i)).len() > 0
    &&& forall|i: int| 0 <= i < t.nb() ==> #[trigger] t.fk(i) == t.block_es(i)[0].0
    &&& forall|i: int|
        0 <= i < t.nb() - 1 ==> lex_lt((#[trigger] t.block_es(i)).last().0, t.block_es(i + 1)[0].0)
}

/// What the table invariant gives of each block.
pub proof fn lemma_sst_basic(t: &SsTable)
    requires
        t.wf(),
    ensures
        1 <= t.nb(),
        t.block_meta_offset + 4 <= t.data@.len() <= 0xFFFF_FFFF,
        metas_wf(metas_view(t.block_metas@)),
        t.block_lo(0) == 0,
        forall|i: int|
            0 <= i < t.nb() ==> 0 <= #[trigger] t.block_lo(i) < t.block_hi(i)
                <= t.block_meta_offset,
        forall|i: int| 0 <= i < t.nb() ==> (#[trigger] t.block_pair(i)) is Some,
        forall|i: int|
            0 <= i < t.nb() ==> block_wf(
                (#[trigger] t.block_pair(i))->Some_0.0,
                t.block_pair(i)->Some_0.1,
            ),
        forall|i: int| 0 <= i < t.nb() ==> (#[trigger] t.block_es(i)).len() > 0,
        forall|i: int| 0 <= i < t.nb() ==> #[trigger] t.fk(i) == t.block_es(i)[0].0,
        forall|i: int|
            0 <= i < t.nb() - 1 ==> lex_lt(
                (#[trigger] t.block_es(i)).last().0,
                t.block_es(i + 1)[0].0,
            ),
        forall|i: int| 0 <= i < t.nb() ==> strictly_sorted(#[trigger] t.block_es(i)),
{
    reveal(sst_wf);
    assert forall|i: int|
        0 <= i < t.nb() implies block_wf(
        (#[trigger] t.block_pair(i))->Some_0.0,
        t.block_pair(i)->Some_0.1,
    ) && strictly_sorted(t.block_es(i)) && 0 <= t.block_lo(i) by {
        crate::block::lemma_spec_decode_wf(t.data@.subrange(t.block_lo(i), t.block_hi(i)));
        let (d, o) = t.block_pair(i)->Some_0;
        crate::block::lemma_entries_sorted_pairs(d, o);
    }
}

/// Copy a block.
pub fn dup_block(b: &Block) -> (r: Block)
    ensures
        r.data@ == b.data@,
        r.offsets@ == b.offsets@,
        r.padding == b.padding,
        r@ == b@,
        r.wf() == b.wf(),
{
    let mut offs: Vec<u16> = Vec::new();
    let mut i: usize = 0;
    while i < b.offsets.len()
        invariant
            0 <= i <= b.offsets@.len(),
            offs@ =~= b.offsets@.subrange(0, i as int),
        decreases b.offsets@.len() - i,
    {
        offs.push(b.offsets[i]);
        proof {
            assert(offs@ =~= b.offsets@.subrange(0, i + 1));
        }
        i = i + 1;
    }
    proof {
        assert(offs@ =~= b.offsets@);
    }
    Block { data: crate::keys::dup_bytes(&b.data), offsets: offs, padding: b.padding }
}

impl SsTable {
    /// Get number of data blocks.
    pub fn num_of_blocks(&self) -> (r: usize)
        ensures
            r == self.nb(),
    {
        self.block_metas.len()
    }

    /// Read block `block_idx` out of the table's bytes and decode it.
    pub fn read_block(&self, block_idx: usize) -> (b: Block)
        requires
            self.wf(),
            block_idx < self.nb(),
        ensures
            b.wf(),
            b@ == self.block_es(block_idx as int),
            b.data@.len() + b.padding + 2 * b.offsets@.len() + 6 == self.block_hi(
                block_idx as int,
            ) - self.block_lo(block_idx as int),
    {
        proof {
            lemma_sst_basic(self);
        }
        let n = self.block_metas.len();
        let lo = self.block_metas[block_idx].offset;
        let hi = if block_idx + 1 < n {
            self.block_metas[block_idx + 1].offset
        } else {
            self.block_meta_offset
        };
        proof {
            reveal(sst_wf);
            assert(self.block_lo(block_idx as int) < self.block_hi(block_idx as int)
                <= self.block_meta_offset);
            assert(lo == self.block_lo(block_idx as int));
            assert(hi == self.block_hi(block_idx as int));
            assert(self.block_pair(block_idx as int) is Some);
        }
        let bytes = copy_range(&self.data, lo, hi);
        match Block::decode(&bytes) {
            Ok(b) => b,
            Err(_) => {
                proof {
                    assert(false);
                }
                Block { data: Vec::new(), offsets: Vec::new(), padding: 0 }
            },
        }
    }
}

/// A bounded cache of decoded blocks, keyed by table id and block index.
/// Each entry costs its block's encoded length; the oldest entries leave
/// first once the budget is passed.
pub struct BlockCache {
    pub entries: Vec<(usize, usize, Block)>,
    pub cap: usize,
    pub used: usize,
}

/// What one cached entry costs: its block's encoded length.
pub open spec fn entry_cost(e: (usize, usize, Block)) -> int {
    e.2.data@.len() + e.2.padding + 2 * e.2.offsets@.len() + 6
}

/// The total cost of the cached entries.
pub open spec fn cache_used(es: Seq<(usize, usize, Block)>) -> int
    decreases es.len(),
{
    if es.len() == 0 {
        0
    } else {
        entry_cost(es[0]) + cache_used(es.drop_first())
    }
}

/// The total cost grows by each appended entry's cost.
pub proof fn lemma_cache_used_push(es: Seq<(usize, usize, Block)>, e: (usize, usize, Block))
    ensures
        cache_used(es.push(e)) == cache_used(es) + entry_cost(e),
    decreases es.len(),
{
    if es.len() == 0 {
        assert(es.push(e)[0] == e);
        assert(es.push(e).drop_first() =~= es);
    } else {
        assert(es.push(e)[0] == es[0]);
        assert(es.push(e).drop_first() =~= es.drop_first().push(e));
        lemma_cache_used_push(es.drop_first(), e);
    }
}

/// All cached entries have non-negative costs.
pub open spec fn entries_costs_nonneg(es: Seq<(usize, usize, Block)>) -> bool {
    forall|j: int| 0 <= j < es.len() ==> entry_cost(#[trigger] es[j]) >= 0
}

/// Every cached block is well-formed, and the recorded byte total is the
/// exact sum of the entries' costs, within the budget.
pub open spec fn cache_wf(c: BlockCache) -> bool {
    &&& forall|j: int| 0 <= j < c.entries@.len() ==> (#[trigger] c.entries@[j]).2.wf()
    &&& c.used as int == cache_used(c.entries@)
    &&& c.used <= c.cap
    &&& c.cap <= 0x7FFF_FFFF
}

/// Every cached block filed under a table's id really is that block of the
/// table.
pub open spec fn cache_coherent(c: BlockCache, t: SsTable) -> bool {
    forall|j: int|
        0 <= j < c.entries@.len() && (#[trigger] c.entries@[j]).0 == t.id ==> 0 <= c.entries@[j].1
            < t.nb() && c.entries@[j].2@ == t.block_es(c.entries@[j].1 as int)
}

impl BlockCache {
    /// An empty cache with a byte budget.
    pub fn new(cap: usize) -> (r: BlockCache)
        requires
            cap <= 0x7FFF_FFFF,
        ensures
            cache_wf(r),
            forall|t: SsTable| #[trigger] cache_coherent(r, t),
            r.entries@.len() == 0,
            r.cap == cap,
    {
        BlockCache { entries: Vec::new(), cap, used: 0 }
    }

    /// Find a cached block.
    fn lookup(&self, id: usize, idx: usize) -> (r: Option<usize>)
        ensures
            r matches Some(j) ==> j < self.entries@.len() && self.entries@[j as int].0 == id
                && self.entries@[j as int].1 == idx,
    {
        let mut j: usize = 0;
        while j < self.entries.len()
            invariant
                0 <= j <= self.entries@.len(),
            decreases self.entries@.len() - j,
        {
            if self.entries[j].0 == id && self.entries[j].1 == idx {
                return Some(j);
            }
            j = j + 1;
        }
        None
    }

    /// Insert a block, then evict the oldest entries while the budget is
    /// passed.  A block whose cost fits the budget is afterwards present.
    #[verifier::rlimit(100)]
    pub fn insert(&mut self, id: usize, idx: usize, b: Block, blen: usize)
        requires
            cache_wf(*old(self)),
            b.wf(),
            blen as int == entry_cost((id, idx, b)),
        ensures
            cache_wf(*final(self)),
            final(self).cap == old(self).cap,
            forall|t: SsTable|
                #[trigger] cache_coherent(*old(self), t) && (t.id != id || (idx < t.nb() && b@
                    == t.block_es(idx as int))) ==> cache_coherent(*final(self), t),
            forall|j: int|
                0 <= j < final(self).entries@.len() ==> (#[trigger] final(self).entries@[j]).0 == id
                    || exists|j0: int|
                    0 <= j0 < old(self).entries@.len() && (#[trigger] old(self).entries@[j0]).0
                        == final(self).entries@[j].0,
            blen <= old(self).cap ==> exists|j: int|
                0 <= j < final(self).entries@.len() && (#[trigger] final(self).entries@[j]) == (
                id,
                idx,
                b,
            ),
    {
        proof {
            crate::block::lemma_block_entries_len(b.data@, b.offsets@);
            lemma_cache_used_push(self.entries@, (id, idx, b));
            assert(entries_costs_nonneg(self.entries@));
        }
        self.entries.push((id, idx, b));
        self.used = self.used + blen;
        let ghost pushed = self.entries@;
        #[verifier::loop_isolation(false)]
        while self.used > self.cap && self.entries.len() > 0
            invariant
                forall|j: int| 0 <= j < self.entries@.len() ==> (#[trigger] self.entries@[j]).2.wf(),
                self.used as int == cache_used(self.entries@),
                self.cap == old(self).cap,
                self.cap <= 0x7FFF_FFFF,
                self.entries@.len() <= pushed.len(),
                self.entries@ =~= pushed.skip(pushed.len() - self.entries@.len()),
                self.entries@.len() > 0 ==> self.entries@.last() == (id, idx, b),
                blen <= self.cap ==> self.entries@.len() > 0,
            decreases self.entries@.len(),
        {
            proof {
                assert(self.entries@[0].2.wf());
                assert(cache_used(self.entries@) == entry_cost(self.entries@[0]) + cache_used(
                    self.entries@.drop_first(),
                ));
                assert(entries_costs_nonneg(self.entries@.drop_first())) by {
                    assert forall|j: int|
                        0 <= j < self.entries@.drop_first().len() implies entry_cost(
                        #[trigger] self.entries@.drop_first()[j],
                    ) >= 0 by {
                        assert(self.entries@.drop_first()[j] == self.entries@[j + 1]);
                    }
                }
                lemma_cache_used_nonneg(self.entries@.drop_first());
                if self.entries@.len() == 1 && blen <= self.cap {
                    assert(self.entries@ =~= pushed.skip(pushed.len() - 1));
                    assert(self.entries@[0] == pushed[pushed.len() - 1]);
                    assert(self.entries@[0] == (id, idx, b));
                    assert(cache_used(self.entries@.drop_first()) == 0) by {
                        assert(self.entries@.drop_first().len() == 0);
                    }
                    assert(self.used as int == entry_cost(self.entries@[0]));
                    assert(entry_cost(self.entries@[0]) == entry_cost((id, idx, b)));
                    assert(self.used <= self.cap);
                }
            }
            let l = self.entries[0].2.len();
            proof {
                assert(l as int == entry_cost(self.entries@[0]));
            }
            self.used = self.used - l;
            let ghost before = self.entries@;
            let _ = self.entries.remove(0);
            proof {
                assert(self.entries@ =~= before.drop_first());
                assert(self.entries@ =~= pushed.skip(pushed.len() - self.entries@.len()));
                if self.entries@.len() > 0 {
                    assert(self.entries@.last() == before.last());
                }
            }
        }
        proof {
            if self.used > self.cap {
                assert(self.entries@.len() == 0);
                assert(cache_used(self.entries@) == 0);
            }
            if blen <= self.cap {
                assert(self.entries@.last() == (id, idx, b));
                assert(self.entries@[self.entries@.len() - 1] == (id, idx, b));
            }
            let shift = pushed.len() - self.entries@.len();
            assert forall|j: int|
                0 <= j < self.entries@.len() implies (#[trigger] self.entries@[j]).0 == id || exists|
                j0: int,
            |
                0 <= j0 < old(self).entries@.len() && (#[trigger] old(self).entries@[j0]).0
                    == self.entries@[j].0 by {
                assert(self.entries@[j] == pushed[j + shift]);
                if j + shift < pushed.len() - 1 {
                    assert(old(self).entries@[j + shift].0 == self.entries@[j].0);
                }
            }
            assert forall|t: SsTable|
                #[trigger] cache_coherent(*old(self), t) && (t.id != id || (idx < t.nb() && b@
                    == t.block_es(idx as int))) implies cache_coherent(*final(self), t) by {
                assert forall|j: int|
                    0 <= j < self.entries@.len() && (#[trigger] self.entries@[j]).0 == t.id implies 0
                    <= self.entries@[j].1 < t.nb() && self.entries@[j].2@ == t.block_es(
                    self.entries@[j].1 as int,
                ) by {
                    assert(self.entries@[j] == pushed[j + shift]);
                    if j + shift < pushed.len() - 1 {
                        assert(pushed[j + shift] == old(self).entries@[j + shift]);
                    }
                }
            }
        }
    }
}

/// The total cost of entries with non-negative costs is non-negative.
pub proof fn lemma_cache_used_nonneg(es: Seq<(usize, usize, Block)>)
    requires
        entries_costs_nonneg(es),
    ensures
        cache_used(es) >= 0,
    decreases es.len(),
{
    if es.len() > 0 {
        assert forall|j: int|
            0 <= j < es.drop_first().len() implies entry_cost(#[trigger] es.drop_first()[j])
                >= 0 by {
            assert(es.drop_first()[j] == es[j + 1]);
        }
        lemma_cache_used_nonneg(es.drop_first());
    }
}

impl SsTable {
    /// Read a block through the cache: on a hit the cached copy is
    /// returned, on a miss the block is decoded and cached.  Cached blocks
    /// filed under other tables' ids are untouched.
    pub fn read_block_cached(&self, block_idx: usize, cache: &mut BlockCache) -> (b: Block)
        requires
            self.wf(),
            block_idx < self.nb(),
            cache_wf(*old(cache)),
            cache_coherent(*old(cache), *self),
        ensures
            b.wf(),
            b@ == self.block_es(block_idx as int),
            cache_wf(*final(cache)),
            cache_coherent(*final(cache), *self),
            forall|t: SsTable|
                #[trigger] cache_coherent(*old(cache), t) && t.id != self.id ==> cache_coherent(
                    *final(cache),
                    t,
                ),
            forall|j: int|
                0 <= j < final(cache).entries@.len() ==> (#[trigger] final(cache).entries@[j]).0
                    == self.id || exists|j0: int|
                    0 <= j0 < old(cache).entries@.len() && (#[trigger] old(cache).entries@[j0]).0
                        == final(cache).entries@[j].0,
            final(cache).cap == old(cache).cap,
            self.block_hi(block_idx as int) - self.block_lo(block_idx as int) <= old(cache).cap
                ==> exists|j: int|
                0 <= j < final(cache).entries@.len() && (#[trigger] final(cache).entries@[j]).0
                    == self.id && final(cache).entries@[j].1 == block_idx
                    && final(cache).entries@[j].2@ == self.block_es(block_idx as int),
    {
        match cache.lookup(self.id, block_idx) {
            Some(j) => {
                let e = &cache.entries[j];
                dup_block(&e.2)
            },
            None => {
                let b = self.read_block(block_idx);
                let blen = b.len();
                cache.insert(self.id, block_idx, dup_block(&b), blen);
                b
            },
        }
    }
}


/// First keys strictly ascend across blocks.
pub proof fn lemma_sst_fk_le(t: &SsTable, i: int, j: int)
    requires
        t.wf(),
        0 <= i <= j < t.nb(),
    ensures
        lex_le(t.fk(i), t.fk(j)),
    decreases j - i,
{
    lemma_sst_basic(t);
    if i < j {
        lemma_sst_fk_le(t, i + 1, j);
        let es = t.block_es(i);
        crate::entries::lemma_sorted_le_last(es);
        assert(lex_le(es[0].0, es.last().0));
        assert(lex_lt(es.last().0, t.block_es(i + 1)[0].0));
        crate::keys::lemma_lex_le_lt_trans(t.fk(i), es.last().0, t.fk(i + 1));
        assert(lex_lt(t.fk(i), t.fk(i + 1)));
        crate::keys::lemma_lex_le_trans(t.fk(i), t.fk(i + 1), t.fk(j));
    }
}

/// Every entry of a block before block `m` lies strictly below block `m`'s
/// first key.
pub proof fn lemma_sst_blocks_below(t: &SsTable, m: int)
    requires
        t.wf(),
        0 <= m < t.nb(),
    ensures
        forall|j: int, u: int|
            0 <= j < m && 0 <= u < t.block_es(j).len() ==> lex_lt(
                (#[trigger] t.block_es(j)[u]).0,
                t.fk(m),
            ),
{
    lemma_sst_basic(t);
    assert forall|j: int, u: int|
        0 <= j < m && 0 <= u < t.block_es(j).len() implies lex_lt(
        (#[trigger] t.block_es(j)[u]).0,
        t.fk(m),
    ) by {
        let es = t.block_es(j);
        crate::entries::lemma_sorted_le_last(es);
        assert(lex_le(es[u].0, es.last().0));
        assert(lex_lt(es.last().0, t.fk(j + 1)));
        lemma_sst_fk_le(t, j + 1, m);
        crate::keys::lemma_lex_le_lt_trans(es[u].0, es.last().0, t.fk(j + 1));
        crate::keys::lemma_lex_lt_le_trans(es[u].0, t.fk(j + 1), t.fk(m));
    }
}

/// What the table's map view holds is exactly what its blocks hold.
pub proof fn lemma_sst_map(t: &SsTable)
    requires
        t.wf(),
    ensures
        strictly_sorted(t.entries()),
        t.entries().len() > 0,
        t@.dom().finite(),
        forall|i: int, j: int|
            0 <= i < t.nb() && 0 <= j < t.block_es(i).len() ==> t@.dom().contains(
                (#[trigger] t.block_es(i)[j]).0,
            ) && t@[t.block_es(i)[j].0] == t.block_es(i)[j].1,
        forall|k: Seq<u8>|
            #[trigger] t@.dom().contains(k) ==> exists|i: int, j: int|
                0 <= i < t.nb() && 0 <= j < t.block_es(i).len() && (#[trigger] t.block_es(i)[j]).0
                    == k,
{
    lemma_sst_basic(t);
    let bs = t.blocks();
    let es = t.entries();
    assert forall|i: int| 0 <= i < bs.len() implies strictly_sorted(#[trigger] bs[i])
        && bs[i].len() > 0 by {
        assert(bs[i] == t.block_es(i));
    }
    assert forall|i: int| 0 <= i < bs.len() - 1 implies lex_lt(
        (#[trigger] bs[i]).last().0,
        bs[i + 1][0].0,
    ) by {
        assert(bs[i] == t.block_es(i) && bs[i + 1] == t.block_es(i + 1));
    }
    crate::entries::lemma_cat_blocks_sorted(bs);
    crate::entries::lemma_sorted_distinct(es);
    crate::entries::lemma_map_of_entries(es);
    crate::entries::lemma_cat_blocks_membership(bs);
    assert forall|i: int, j: int|
        0 <= i < t.nb() && 0 <= j < t.block_es(i).len() implies t@.dom().contains(
        (#[trigger] t.block_es(i)[j]).0,
    ) && t@[t.block_es(i)[j].0] == t.block_es(i)[j].1 by {
        assert(bs[i][j] == t.block_es(i)[j]);
        assert(es.contains(bs[i][j]));
        let g = choose|g: int| 0 <= g < es.len() && es[g] == bs[i][j];
        assert(t@.dom().contains(es[g].0) && t@[es[g].0] == es[g].1);
    }
    assert forall|k: Seq<u8>| #[trigger] t@.dom().contains(k) implies exists|i: int, j: int|
        0 <= i < t.nb() && 0 <= j < t.block_es(i).len() && (#[trigger] t.block_es(i)[j]).0 == k by {
        let g = choose|g: int| 0 <= g < es.len() && (#[trigger] es[g]).0 == k;
        assert(es.contains(es[g]));
        let i = choose|i: int| 0 <= i < bs.len() && (#[trigger] bs[i]).contains(es[g]);
        let j = choose|j: int| 0 <= j < bs[i].len() && (#[trigger] bs[i][j]) == es[g];
        assert(t.block_es(i)[j].0 == k);
    }
}

impl SsTable {
    /// Find the index of the block that may hold `key`: every block before
    /// it lies wholly below `key`, and it holds an entry at or above `key`
    /// unless `key` lies past the whole table and the last block is
    /// returned.
    #[verifier::rlimit(100)]
    pub fn find_block_idx(&self, key: &Vec<u8>) -> (r: usize)
        requires
            self.wf(),
        ensures
            r < self.nb(),
            forall|j: int, u: int|
                0 <= j < r && 0 <= u < self.block_es(j).len() ==> lex_lt(
                    (#[trigger] self.block_es(j)[u]).0,
                    key@,
                ),
            (exists|u: int|
                0 <= u < self.block_es(r as int).len() && lex_le(
                    key@,
                    (#[trigger] self.block_es(r as int)[u]).0,
                )) || (r == self.nb() - 1 && forall|j: int, u: int|
                0 <= j < self.nb() && 0 <= u < self.block_es(j).len() ==> lex_lt(
                    (#[trigger] self.block_es(j)[u]).0,
                    key@,
                )),
    {
        proof {
            lemma_sst_basic(self);
        }
        let n = self.block_metas.len();
        // binary search for the least block whose first key lies above `key`
        let mut lo: usize = 0;
        let mut hi: usize = n;
        while lo < hi
            invariant
                0 <= lo <= hi <= n,
                n == self.nb(),
                self.wf(),
                forall|i: int| 0 <= i < lo ==> lex_le(#[trigger] self.fk(i), key@),
                forall|i: int| hi <= i < n ==> lex_lt(key@, #[trigger] self.fk(i)),
            decreases hi - lo,
        {
            let mid = lo + (hi - lo) / 2;
            match key_cmp(key, &self.block_metas[mid].first_key) {
                KeyOrd::Less => {
                    proof {
                        assert forall|i: int| mid <= i < n implies lex_lt(
                            key@,
                            #[trigger] self.fk(i),
                        ) by {
                            lemma_sst_fk_le(self, mid as int, i);
                            crate::keys::lemma_lex_lt_le_trans(key@, self.fk(mid as int), self.fk(i));
                        }
                    }
                    hi = mid;
                },
                _ => {
                    proof {
                        assert(lex_le(self.fk(mid as int), key@));
                        assert forall|i: int| 0 <= i < mid + 1 implies lex_le(
                            #[trigger] self.fk(i),
                            key@,
                        ) by {
                            lemma_sst_fk_le(self, i, mid as int);
                            crate::keys::lemma_lex_le_trans(self.fk(i), self.fk(mid as int), key@);
                        }
                    }
                    lo = mid + 1;
                },
            }
        }
        self.find_from_partition(key, lo)
    }

    /// Resolve the block index given the partition point of the first-key
    /// table: the first `p` first keys lie at or below `key`, the rest
    /// above it.
    #[verifier::rlimit(100)]
    fn find_from_partition(&self, key: &Vec<u8>, p: usize) -> (r: usize)
        requires
            self.wf(),
            p <= self.nb(),
            forall|i: int| 0 <= i < p ==> lex_le(#[trigger] self.fk(i), key@),
            forall|i: int| p <= i < self.nb() ==> lex_lt(key@, #[trigger] self.fk(i)),
        ensures
            r < self.nb(),
            forall|j: int, u: int|
                0 <= j < r && 0 <= u < self.block_es(j).len() ==> lex_lt(
                    (#[trigger] self.block_es(j)[u]).0,
                    key@,
                ),
            (exists|u: int|
                0 <= u < self.block_es(r as int).len() && lex_le(
                    key@,
                    (#[trigger] self.block_es(r as int)[u]).0,
                )) || (r == self.nb() - 1 && forall|j: int, u: int|
                0 <= j < self.nb() && 0 <= u < self.block_es(j).len() ==> lex_lt(
                    (#[trigger] self.block_es(j)[u]).0,
                    key@,
                )),
    {
        proof {
            lemma_sst_basic(self);
        }
        let n = self.block_metas.len();
        if p == n {
            // every first key lies at or below `key`
            proof {
                lemma_find_tail_case(self, key@);
            }
            n - 1
        } else if p == 0 {
            proof {
                assert(self.fk(0) == self.block_es(0)[0].0);
                assert(lex_le(key@, self.block_es(0)[0].0));
            }
            0
        } else {
            let blk = self.read_block(p - 1);
            proof {
                crate::block::lemma_block_entries_len(blk.data@, blk.offsets@);
            }
            let last_key = crate::block_iter::read_key_at(&blk, blk.offsets.len() - 1);
            let ghost qes = self.block_es(p - 1);
            proof {
                assert(last_key@ == qes.last().0);
            }
            match key_cmp(key, &last_key) {
                KeyOrd::Greater => {
                    proof {
                        lemma_find_resolve_next(self, key@, p as int);
                    }
                    p
                },
                _ => {
                    proof {
                        lemma_find_resolve_prev(self, key@, p as int);
                    }
                    p - 1
                },
            }
        }
    }
}

/// When the probe lies above the previous block's last key, block `p` is
/// the answer: everything before it lies below the probe, and its first
/// key lies above the probe.
proof fn lemma_find_resolve_next(t: &SsTable, key: Seq<u8>, p: int)
    requires
        t.wf(),
        0 < p < t.nb(),
        forall|i: int| 0 <= i < p ==> lex_le(#[trigger] t.fk(i), key),
        lex_lt(t.block_es(p - 1).last().0, key),
        lex_lt(key, t.fk(p)),
    ensures
        forall|j: int, u: int|
            0 <= j < p && 0 <= u < t.block_es(j).len() ==> lex_lt(
                (#[trigger] t.block_es(j)[u]).0,
                key,
            ),
        exists|u: int|
            0 <= u < t.block_es(p).len() && lex_le(key, (#[trigger] t.block_es(p)[u]).0),
{
    let qes = t.block_es(p - 1);
    assert forall|j: int, u: int|
        0 <= j < p && 0 <= u < t.block_es(j).len() implies lex_lt(
        (#[trigger] t.block_es(j)[u]).0,
        key,
    ) by {
        lemma_find_below_point(t, key, p - 1, j, u);
    }
    proof_fk_witness(t, key, p);
}

/// One entry of a block at or before the partition point lies below the
/// probe, given the previous block's last key does.
proof fn lemma_find_below_point(t: &SsTable, key: Seq<u8>, q: int, j: int, u: int)
    requires
        t.wf(),
        0 <= q < t.nb(),
        forall|i: int| 0 <= i <= q ==> lex_le(#[trigger] t.fk(i), key),
        lex_lt(t.block_es(q).last().0, key),
        0 <= j <= q,
        0 <= u < t.block_es(j).len(),
    ensures
        lex_lt(t.block_es(j)[u].0, key),
{
    lemma_sst_basic(t);
    if j < q {
        lemma_sst_blocks_below(t, q);
        crate::keys::lemma_lex_lt_le_trans(t.block_es(j)[u].0, t.fk(q), key);
    } else {
        let qes = t.block_es(q);
        crate::entries::lemma_sorted_le_last(qes);
        crate::keys::lemma_lex_le_lt_trans(t.block_es(j)[u].0, qes.last().0, key);
    }
}

/// Block `p`'s first entry witnesses an entry at or above the probe.
proof fn proof_fk_witness(t: &SsTable, key: Seq<u8>, p: int)
    requires
        t.wf(),
        0 <= p < t.nb(),
        lex_lt(key, t.fk(p)),
    ensures
        exists|u: int|
            0 <= u < t.block_es(p).len() && lex_le(key, (#[trigger] t.block_es(p)[u]).0),
{
    lemma_sst_basic(t);
    assert(t.fk(p) == t.block_es(p)[0].0);
    assert(lex_le(key, t.block_es(p)[0].0));
}

/// When the probe lies at or below the previous block's last key, block
/// `p - 1` is the answer: everything before it lies below the probe, and
/// its last entry lies at or above the probe.
proof fn lemma_find_resolve_prev(t: &SsTable, key: Seq<u8>, p: int)
    requires
        t.wf(),
        0 < p < t.nb(),
        forall|i: int| 0 <= i < p ==> lex_le(#[trigger] t.fk(i), key),
        lex_le(key, t.block_es(p - 1).last().0),
    ensures
        forall|j: int, u: int|
            0 <= j < p - 1 && 0 <= u < t.block_es(j).len() ==> lex_lt(
                (#[trigger] t.block_es(j)[u]).0,
                key,
            ),
        exists|u: int|
            0 <= u < t.block_es(p - 1).len() && lex_le(key, (#[trigger] t.block_es(p - 1)[u]).0),
{
    lemma_sst_basic(t);
    let qes = t.block_es(p - 1);
    lemma_sst_blocks_below(t, p - 1);
    assert forall|j: int, u: int|
        0 <= j < p - 1 && 0 <= u < t.block_es(j).len() implies lex_lt(
        (#[trigger] t.block_es(j)[u]).0,
        key,
    ) by {
        crate::keys::lemma_lex_lt_le_trans(t.block_es(j)[u].0, t.fk(p - 1), key);
    }
    assert(qes.last() == qes[qes.len() - 1]);
    assert(lex_le(key, t.block_es(p - 1)[qes.len() - 1].0));
}

/// When every first key lies at or below the probe, every entry outside
/// the last block lies strictly below it; if the last block also lies
/// below it, so does the whole table.
proof fn lemma_find_tail_case(t: &SsTable, key: Seq<u8>)
    requires
        t.wf(),
        forall|i: int| 0 <= i < t.nb() ==> lex_le(#[trigger] t.fk(i), key),
    ensures
        (exists|u: int|
            0 <= u < t.block_es(t.nb() - 1).len() && lex_le(
                key,
                (#[trigger] t.block_es(t.nb() - 1)[u]).0,
            )) || forall|j: int, u: int|
            0 <= j < t.nb() && 0 <= u < t.block_es(j).len() ==> lex_lt(
                (#[trigger] t.block_es(j)[u]).0,
                key,
            ),
        forall|j: int, u: int|
            0 <= j < t.nb() - 1 && 0 <= u < t.block_es(j).len() ==> lex_lt(
                (#[trigger] t.block_es(j)[u]).0,
                key,
            ),
{
    lemma_sst_basic(t);
    let last = t.nb() - 1;
    assert forall|j: int, u: int|
        0 <= j < last && 0 <= u < t.block_es(j).len() implies lex_lt(
        (#[trigger] t.block_es(j)[u]).0,
        key,
    ) by {
        lemma_sst_blocks_below(t, last);
        crate::keys::lemma_lex_lt_le_trans(t.block_es(j)[u].0, t.fk(last), key);
    }
    if exists|u: int|
        0 <= u < t.block_es(last).len() && lex_le(key, (#[trigger] t.block_es(last)[u]).0) {
    } else {
        assert forall|j: int, u: int|
            0 <= j < t.nb() && 0 <= u < t.block_es(j).len() implies lex_lt(
            (#[trigger] t.block_es(j)[u]).0,
            key,
        ) by {
            if j == last {
                assert(!lex_le(key, t.block_es(last)[u].0));
                crate::keys::lemma_lex_total(t.block_es(last)[u].0, key);
            }
        }
    }
}


/// If every entry of every block before `idx` lies below the probe, block
/// `idx` holds no entry equal to it, and either block `idx` reaches the
/// probe or `idx` is the last block with the whole table below the probe,
/// then the table does not hold the probe key.
proof fn lemma_sst_get_absent(t: &SsTable, key: Seq<u8>, idx: int)
    requires
        t.wf(),
        0 <= idx < t.nb(),
        forall|j: int, u: int|
            0 <= j < idx && 0 <= u < t.block_es(j).len() ==> lex_lt(
                (#[trigger] t.block_es(j)[u]).0,
                key,
            ),
        (exists|u: int|
            0 <= u < t.block_es(idx).len() && lex_le(key, (#[trigger] t.block_es(idx)[u]).0)) || (
        idx == t.nb() - 1 && forall|j: int, u: int|
            0 <= j < t.nb() && 0 <= u < t.block_es(j).len() ==> lex_lt(
                (#[trigger] t.block_es(j)[u]).0,
                key,
            )),
        forall|u: int| 0 <= u < t.block_es(idx).len() ==> (#[trigger] t.block_es(idx)[u]).0 != key,
    ensures
        !t@.dom().contains(key),
{
    lemma_sst_basic(t);
    lemma_sst_map(t);
    if t@.dom().contains(key) {
        let (i, j): (int, int) = choose|i: int, j: int|
            0 <= i < t.nb() && 0 <= j < t.block_es(i).len() && (#[trigger] t.block_es(i)[j]).0
                == key;
        if i < idx {
            assert(lex_lt(t.block_es(i)[j].0, key));
            crate::keys::lemma_lex_asym(key, key);
        } else if i == idx {
            assert(t.block_es(idx)[j].0 != key);
        } else {
            if exists|u: int|
                0 <= u < t.block_es(idx).len() && lex_le(key, (#[trigger] t.block_es(idx)[u]).0) {
                let u = choose|u: int|
                    0 <= u < t.block_es(idx).len() && lex_le(key, (#[trigger] t.block_es(idx)[u]).0);
                let qes = t.block_es(idx);
                crate::entries::lemma_sorted_le_last(qes);
                assert(lex_le(qes[u].0, qes.last().0));
                assert(lex_lt(qes.last().0, t.fk(idx + 1)));
                lemma_sst_fk_le(t, idx + 1, i);
                assert(t.fk(i) == t.block_es(i)[0].0);
                assert(lex_le(t.block_es(i)[0].0, t.block_es(i)[j].0)) by {
                    if 0 < j {
                        assert(lex_lt(t.block_es(i)[0].0, t.block_es(i)[j].0));
                    }
                }
                // key <= qes[u] <= last < fk(idx+1) <= fk(i) <= entry == key
                crate::keys::lemma_lex_le_trans(key, qes[u].0, qes.last().0);
                crate::keys::lemma_lex_le_lt_trans(key, qes.last().0, t.fk(idx + 1));
                crate::keys::lemma_lex_lt_le_trans(key, t.fk(idx + 1), t.fk(i));
                crate::keys::lemma_lex_lt_le_trans(key, t.fk(i), t.block_es(i)[j].0);
                crate::keys::lemma_lex_asym(key, key);
            } else {
                assert(idx == t.nb() - 1);
            }
        }
    }
}

impl SsTable {
    /// Look a key up: the value stored under it, if any.  Reads one block
    /// through the cache.
    pub fn get(&self, key: &Vec<u8>, cache: &mut BlockCache) -> (r: Option<Vec<u8>>)
        requires
            self.wf(),
            cache_wf(*old(cache)),
            cache_coherent(*old(cache), *self),
        ensures
            (match r {
                Some(v) => self@.dom().contains(key@) && v@ == self@[key@],
                None => !self@.dom().contains(key@),
            }),
            cache_wf(*final(cache)),
            cache_coherent(*final(cache), *self),
            forall|t: SsTable|
                #[trigger] cache_coherent(*old(cache), t) && t.id != self.id ==> cache_coherent(
                    *final(cache),
                    t,
                ),
            forall|j: int|
                0 <= j < final(cache).entries@.len() ==> (#[trigger] final(cache).entries@[j]).0
                    == self.id || exists|j0: int|
                    0 <= j0 < old(cache).entries@.len() && (#[trigger] old(cache).entries@[j0]).0
                        == final(cache).entries@[j].0,
    {
        let idx = self.find_block_idx(key);
        let blk = self.read_block_cached(idx, cache);
        let ghost bes = self.block_es(idx as int);
        let it = crate::block_iter::BlockIterator::create_and_seek_to_key(blk, key);
        proof {
            lemma_sst_map(self);
        }
        if it.is_valid() {
            match key_cmp(it.key(), key) {
                KeyOrd::Equal => {
                    proof {
                        assert(it.block@[it.idx as int] == bes[it.idx as int]);
                        assert(bes[it.idx as int].0 == key@);
                    }
                    let v = crate::keys::dup_bytes(it.value());
                    proof {
                        assert(v@ == bes[it.idx as int].1);
                    }
                    Some(v)
                },
                _ => {
                    proof {
                        lemma_sst_probe_miss(self, key@, idx as int, it.idx as int);
                    }
                    None
                },
            }
        } else {
            proof {
                lemma_sst_probe_miss(self, key@, idx as int, it.idx as int);
            }
            None
        }
    }
}

/// After seeking inside the probed block, if the position does not carry
/// the probe key then no entry of that block does.
proof fn lemma_sst_probe_miss(t: &SsTable, key: Seq<u8>, idx: int, pos: int)
    requires
        t.wf(),
        0 <= idx < t.nb(),
        0 <= pos <= t.block_es(idx).len(),
        forall|j: int| 0 <= j < pos ==> lex_lt((#[trigger] t.block_es(idx)[j]).0, key),
        pos < t.block_es(idx).len() ==> lex_le(key, t.block_es(idx)[pos].0) && t.block_es(
            idx,
        )[pos].0 != key,
        forall|j: int, u: int|
            0 <= j < idx && 0 <= u < t.block_es(j).len() ==> lex_lt(
                (#[trigger] t.block_es(j)[u]).0,
                key,
            ),
        (exists|u: int|
            0 <= u < t.block_es(idx).len() && lex_le(key, (#[trigger] t.block_es(idx)[u]).0)) || (
        idx == t.nb() - 1 && forall|j: int, u: int|
            0 <= j < t.nb() && 0 <= u < t.block_es(j).len() ==> lex_lt(
                (#[trigger] t.block_es(j)[u]).0,
                key,
            )),
    ensures
        !t@.dom().contains(key),
{
    lemma_sst_basic(t);
    let bes = t.block_es(idx);
    assert forall|u: int| 0 <= u < bes.len() implies (#[trigger] t.block_es(idx)[u]).0 != key by {
        if u < pos {
            crate::keys::lemma_lex_asym(bes[u].0, key);
        } else if u == pos {
        } else {
            assert(lex_lt(bes[pos].0, bes[u].0));
            assert(lex_le(key, bes[pos].0));
            crate::keys::lemma_lex_le_lt_trans(key, bes[pos].0, bes[u].0);
            crate::keys::lemma_lex_asym(key, bes[u].0);
        }
    }
    lemma_sst_get_absent(t, key, idx);
}


/// The identity on booleans.
pub fn is_true(x: bool) -> (r: bool)
    ensures
        r == x,
{
    x
}

} // verus!
