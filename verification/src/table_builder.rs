//! Builds an SST from entries arriving in ascending key order: entries fill
//! a block builder; each full block is finalised and indexed by its first
//! key and byte offset; `build` assembles blocks, meta section and trailer.

use vstd::prelude::*;

use crate::block::{append_bytes, block_encoding, le32, push_u32, Block, Error};
use crate::block_builder::BlockBuilder;
use crate::block_iter::read_key_at;
use crate::entries::{cat_blocks, lemma_cat_blocks_push, map_of_entries};
use crate::keys::{lex_lt, lemma_lex_le_lt_trans};
use crate::table::{
    encode_block_meta, lemma_metas_bytes_push, lemma_metas_round_trip, metas_bytes, metas_view,
    metas_wf, BlockMeta, SsTable,
};

verus! {

/// A block's encoded length.
pub open spec fn block_cost(b: Block) -> int {
    b.data@.len() + b.padding + 2 * b.offsets@.len() + 6
}

/// The concatenated encodings of a run of blocks.
pub open spec fn blocks_enc(bs: Seq<Block>) -> Seq<u8>
    decreases bs.len(),
{
    if bs.len() == 0 {
        Seq::empty()
    } else {
        block_encoding(bs[0].data@, bs[0].offsets@, bs[0].padding as int) + blocks_enc(
            bs.drop_first(),
        )
    }
}

/// Appending a block appends its encoding.
pub proof fn lemma_blocks_enc_push(bs: Seq<Block>, b: Block)
    ensures
        blocks_enc(bs.push(b)) == blocks_enc(bs) + block_encoding(
            b.data@,
            b.offsets@,
            b.padding as int,
        ),
    decreases bs.len(),
{
    let enc = block_encoding(b.data@, b.offsets@, b.padding as int);
    if bs.len() == 0 {
        assert(bs.push(b)[0] == b);
        assert(bs.push(b).drop_first() =~= bs);
        assert(blocks_enc(bs.push(b)) == enc + blocks_enc(bs));
        assert(enc + blocks_enc(bs) =~= blocks_enc(bs) + enc);
    } else {
        assert(bs.push(b)[0] == bs[0]);
        assert(bs.push(b).drop_first() =~= bs.drop_first().push(b));
        lemma_blocks_enc_push(bs.drop_first(), b);
        let head = block_encoding(bs[0].data@, bs[0].offsets@, bs[0].padding as int);
        assert(blocks_enc(bs.push(b)) == head + (blocks_enc(bs.drop_first()) + enc));
        assert(head + (blocks_enc(bs.drop_first()) + enc) =~= blocks_enc(bs) + enc);
    }
}

/// Within the concatenation, block `i`'s encoding occupies the range from
/// the end of the first `i` encodings to the end of the first `i + 1`.
pub proof fn lemma_blocks_enc_slice(bs: Seq<Block>, i: int)
    requires
        0 <= i < bs.len(),
    ensures
        blocks_enc(bs.take(i)).len() <= blocks_enc(bs.take(i + 1)).len() <= blocks_enc(bs).len(),
        blocks_enc(bs).subrange(
            blocks_enc(bs.take(i)).len() as int,
            blocks_enc(bs.take(i + 1)).len() as int,
        ) == block_encoding(bs[i].data@, bs[i].offsets@, bs[i].padding as int),
        blocks_enc(bs.take(i + 1)).len() == blocks_enc(bs.take(i)).len() + block_encoding(
            bs[i].data@,
            bs[i].offsets@,
            bs[i].padding as int,
        ).len(),
    decreases bs.len(),
{
    let enc = block_encoding(bs[i].data@, bs[i].offsets@, bs[i].padding as int);
    if i == 0 {
        assert(bs.take(0) =~= Seq::<Block>::empty());
        assert(blocks_enc(bs.take(0)).len() == 0);
        assert(bs.take(1)[0] == bs[0]);
        assert(bs.take(1).drop_first() =~= Seq::<Block>::empty());
        assert(blocks_enc(bs.take(1)) == enc + blocks_enc(Seq::<Block>::empty()));
        assert(blocks_enc(bs.take(1)) =~= enc);
        assert(blocks_enc(bs) == blocks_enc(seq![bs[0]].add(bs.drop_first())) || true);
        assert(blocks_enc(bs) == block_encoding(bs[0].data@, bs[0].offsets@, bs[0].padding as int)
            + blocks_enc(bs.drop_first()));
        assert(blocks_enc(bs).subrange(0, enc.len() as int) =~= enc);
    } else {
        let rest = bs.drop_first();
        lemma_blocks_enc_slice(rest, i - 1);
        let head = block_encoding(bs[0].data@, bs[0].offsets@, bs[0].padding as int);
        assert(bs.take(i).drop_first() =~= rest.take(i - 1));
        assert(bs.take(i)[0] == bs[0]);
        assert(blocks_enc(bs.take(i)) == head + blocks_enc(rest.take(i - 1)));
        assert(bs.take(i + 1).drop_first() =~= rest.take(i));
        assert(bs.take(i + 1)[0] == bs[0]);
        assert(blocks_enc(bs.take(i + 1)) == head + blocks_enc(rest.take(i)));
        assert(blocks_enc(bs) == head + blocks_enc(rest));
        assert(rest[i - 1] == bs[i]);
        let lo = blocks_enc(rest.take(i - 1)).len() as int;
        let hi = blocks_enc(rest.take(i)).len() as int;
        assert(blocks_enc(rest).subrange(lo, hi) == enc);
        assert(blocks_enc(bs).subrange(head.len() + lo, head.len() + hi) =~= blocks_enc(
            rest,
        ).subrange(lo, hi));
    }
}


/// One step of the cost evolution of feeding an entry of key length `k`
/// and value length `v` into a table builder: `om` is the bytes of sealed
/// blocks plus meta entries, `est` the current block builder's encoded
/// size, `fkl` the current block's first key length.  Nothing once the
/// file-size budget would be passed.
pub open spec fn feed_step(cap: int, om: int, est: int, fkl: int, k: int, v: int) -> Option<
    (int, int, int),
> {
    if om + est + k + v > 0x7FF0_0000 {
        None
    } else if est == 6 {
        Some((om, est + k + v + 6, k))
    } else if est + k + v + 6 <= cap {
        Some((om, est + k + v + 6, fkl))
    } else {
        Some(
            (
                om + (if est <= cap {
                    cap
                } else {
                    est
                }) + 6 + fkl,
                k + v + 12,
                k,
            ),
        )
    }
}

/// The cost evolution of feeding a run of entries from index `i` on.
pub open spec fn feed(cap: int, om: int, est: int, fkl: int, es: Seq<(Seq<u8>, Seq<u8>)>, i: int) -> Option<
    (int, int, int),
>
    decreases es.len() - i,
    when 0 <= i
{
    if i >= es.len() {
        Some((om, est, fkl))
    } else {
        match feed_step(cap, om, est, fkl, es[i].0.len() as int, es[i].1.len() as int) {
            None => None,
            Some(st) => feed(cap, st.0, st.1, st.2, es, i + 1),
        }
    }
}

/// Builds an SST out of entries arriving in ascending key order.
pub struct SsTableBuilder {
    pub meta: Vec<BlockMeta>,
    pub builder: BlockBuilder,
    pub blocks: Vec<Block>,
    pub block_size: usize,
    pub offset: usize,
    pub meta_size: usize,
}

impl SsTableBuilder {
    /// The entry runs of the finished blocks.
    pub open spec fn bviews(&self) -> Seq<Seq<(Seq<u8>, Seq<u8>)>> {
        self.blocks@.map_values(|b: Block| b@)
    }

    /// The entries already sealed into blocks.
    pub open spec fn done_entries(&self) -> Seq<(Seq<u8>, Seq<u8>)> {
        cat_blocks(self.bviews())
    }

    /// Every entry handed to the builder so far, in order.
    pub open spec fn all_entries(&self) -> Seq<(Seq<u8>, Seq<u8>)> {
        self.done_entries() + self.builder@
    }

    /// The current block's first key length, zero while it is empty.
    pub open spec fn cur_fkl(&self) -> int {
        if self.builder@.len() == 0 {
            0
        } else {
            self.builder@[0].0.len() as int
        }
    }

    /// Structural invariant, without the size budget.
    pub open spec fn wf_core(&self) -> bool {
        &&& self.builder.wf()
        &&& self.builder.cap == self.block_size
        &&& 8 <= self.block_size <= 65536
        &&& self.meta@.len() == self.blocks@.len()
        &&& forall|i: int|
            0 <= i < self.blocks@.len() ==> (#[trigger] self.blocks@[i]).wf()
                && self.blocks@[i]@.len() > 0
        &&& forall|i: int|
            0 <= i < self.blocks@.len() ==> block_cost(#[trigger] self.blocks@[i])
                == self.block_size || (self.blocks@[i]@.len() == 1 && block_cost(self.blocks@[i])
                > self.block_size)
        &&& forall|i: int|
            0 <= i < self.meta@.len() ==> (#[trigger] self.meta@[i]).first_key@
                == self.blocks@[i]@[0].0 && self.meta@[i].offset as int == blocks_enc(
                self.blocks@.take(i),
            ).len()
        &&& forall|i: int|
            0 <= i < self.blocks@.len() - 1 ==> lex_lt(
                (#[trigger] self.blocks@[i])@.last().0,
                self.blocks@[i + 1]@[0].0,
            )
        &&& (self.blocks@.len() > 0 && self.builder@.len() > 0 ==> lex_lt(
            self.blocks@.last()@.last().0,
            self.builder@[0].0,
        ))
        &&& self.offset as int == blocks_enc(self.blocks@).len()
        &&& self.meta_size as int == metas_bytes(metas_view(self.meta@)).len()
        &&& metas_wf(metas_view(self.meta@))
    }

    /// Builder invariant: structure plus the file-size budget that keeps
    /// every offset within the 32-bit wire width.
    pub open spec fn wf(&self) -> bool {
        &&& self.wf_core()
        &&& self.offset + self.meta_size + self.builder.est_size() <= 0x7FF3_0000
    }

    /// Create a builder whose blocks hold `block_size` encoded bytes.
    pub fn new(block_size: usize) -> (r: SsTableBuilder)
        requires
            8 <= block_size <= 65536,
        ensures
            r.wf(),
            r.all_entries() == Seq::<(Seq<u8>, Seq<u8>)>::empty(),
            r.block_size == block_size,
            r.offset == 0,
            r.meta_size == 0,
            r.builder.est_size() == 6,
            r.builder@.len() == 0,
            r.blocks@.len() == 0,
    {
        let r = SsTableBuilder {
            meta: Vec::new(),
            builder: BlockBuilder::new(block_size),
            blocks: Vec::new(),
            block_size,
            offset: 0,
            meta_size: 0,
        };
        proof {
            assert(r.bviews() =~= Seq::<Seq<(Seq<u8>, Seq<u8>)>>::empty());
            assert(r.meta@ =~= Seq::<BlockMeta>::empty());
            assert(metas_view(r.meta@) =~= Seq::<(int, Seq<u8>)>::empty());
            assert(r.all_entries() =~= Seq::<(Seq<u8>, Seq<u8>)>::empty());
        }
        r
    }

    /// The bytes the table would take now: the sealed blocks plus the
    /// current block builder's encoded size.
    pub fn estimated_size(&self) -> (r: usize)
        requires
            self.wf(),
        ensures
            r == self.offset + self.builder.est_size(),
    {
        self.offset + self.builder.size()
    }

    /// Seal the current block: finalise it, record its offset and first
    /// key, and start a fresh block builder.
    fn finish_block(&mut self)
        requires
            old(self).wf_core(),
            old(self).builder@.len() > 0,
            old(self).offset + old(self).meta_size + old(self).builder.est_size() <= 0x7FF4_0000,
        ensures
            final(self).wf_core(),
            final(self).builder@.len() == 0,
            final(self).block_size == old(self).block_size,
            final(self).all_entries() == old(self).all_entries(),
            final(self).offset + final(self).meta_size <= old(self).offset + old(self).meta_size
                + old(self).builder.est_size() + 0x2_0010,
            final(self).builder.est_size() == 6,
            final(self).offset as int == old(self).offset + (if old(self).builder.est_size()
                <= old(self).block_size {
                old(self).block_size as int
            } else {
                old(self).builder.est_size()
            }),
            final(self).meta_size as int == old(self).meta_size + 6 + old(self).builder@[0].0.len(),
            final(self).meta@.len() == old(self).meta@.len() + 1,
    {
        let mut fresh = BlockBuilder::new(self.block_size);
        core::mem::swap(&mut self.builder, &mut fresh);
        let blk = fresh.build();
        proof {
            crate::block::lemma_block_entries_len(blk.data@, blk.offsets@);
            crate::block::lemma_block_encoding_len(blk.data@, blk.offsets@, blk.padding as int);
            crate::block::lemma_block_entry_at(blk.data@, blk.offsets@, 0);
            crate::block::lemma_entries_sorted_pairs(blk.data@, blk.offsets@);
        }
        let fk = read_key_at(&blk, 0);
        let fklen = fk.len();
        let elen = blk.len();
        let ghost oldblocks = self.blocks@;
        let ghost oldmeta = self.meta@;
        let ghost oldoffset = self.offset as int;
        proof {
            if old(self).builder@.len() >= 2 {
                assert(old(self).builder.est_size() <= old(self).block_size);
            }
            assert(block_cost(blk) == old(self).block_size || (blk@.len() == 1 && block_cost(blk)
                > old(self).block_size));
        }
        self.meta.push(BlockMeta { offset: self.offset, first_key: fk });
        self.meta_size = self.meta_size + (6 + fklen);
        self.blocks.push(blk);
        self.offset = self.offset + elen;
        proof {
            lemma_finish_block_shape(
                *old(self),
                *self,
                blk,
                oldblocks,
                oldmeta,
                oldoffset,
                fklen as int,
                elen as int,
            );
        }
    }

    /// Append an entry, sealing the current block first when it is full.
    /// Fails, leaving the builder unchanged, when the table would pass the
    /// file-size budget that keeps offsets within 32 bits.
    pub fn add(&mut self, key: &Vec<u8>, value: &Vec<u8>) -> (r: Result<(), Error>)
        requires
            old(self).wf(),
            0 < key@.len() <= 0xFFFF,
            value@.len() <= 0xFFFF,
            old(self).all_entries().len() > 0 ==> lex_lt(old(self).all_entries().last().0, key@),
        ensures
            final(self).wf(),
            final(self).block_size == old(self).block_size,
            r is Ok <==> old(self).offset + old(self).meta_size + old(self).builder.est_size()
                + key@.len() + value@.len() <= 0x7FF0_0000,
            r is Ok ==> final(self).all_entries() == old(self).all_entries().push((key@, value@)),
            r is Ok <==> feed_step(
                old(self).block_size as int,
                old(self).offset + old(self).meta_size,
                old(self).builder.est_size(),
                old(self).cur_fkl(),
                key@.len() as int,
                value@.len() as int,
            ) is Some,
            r is Ok ==> Some(
                (
                    final(self).offset + final(self).meta_size,
                    final(self).builder.est_size(),
                    final(self).cur_fkl(),
                ),
            ) == feed_step(
                old(self).block_size as int,
                old(self).offset + old(self).meta_size,
                old(self).builder.est_size(),
                old(self).cur_fkl(),
                key@.len() as int,
                value@.len() as int,
            ),
            r is Err ==> *final(self) == *old(self) && r == Result::<(), Error>::Err(
                Error::InvariantViolation,
            ),
    {
        proof {
            crate::block_builder::lemma_builder_empty_iff(&self.builder);
        }
        if self.offset + self.meta_size + self.builder.size() + key.len() + value.len()
            > 0x7FF0_0000 {
            return Err(Error::InvariantViolation);
        }
        proof {
            if self.builder@.len() > 0 {
                assert(self.all_entries().len() > 0);
                assert(self.all_entries().last() == self.builder@.last());
            }
        }
        let ghost pre = *self;
        proof {
            if pre.builder@.len() == 0 && pre.blocks@.len() > 0 {
                lemma_cat_last(pre.bviews());
                assert(pre.bviews().last() == pre.blocks@.last()@);
                assert(pre.all_entries().last() == pre.done_entries().last());
                assert(pre.all_entries().len() > 0);
            }
        }
        let ok = self.builder.add(key, value);
        if ok {
            proof {
                assert(self.all_entries() =~= old(self).all_entries().push((key@, value@)));
                if pre.blocks@.len() > 0 && pre.builder@.len() == 0 {
                    assert(self.builder@[0] == (key@, value@));
                    assert(lex_lt(self.blocks@.last()@.last().0, self.builder@[0].0));
                }
                if pre.builder@.len() == 0 {
                    assert(self.cur_fkl() == key@.len());
                } else {
                    assert(self.builder@[0] == pre.builder@[0]);
                }
            }
            Ok(())
        } else {
            self.finish_block();
            let ghost mid = *self;
            let ok2 = self.builder.add(key, value);
            proof {
                assert(ok2);
                assert(self.builder@ =~= Seq::<(Seq<u8>, Seq<u8>)>::empty().push((key@, value@)));
                assert(self.cur_fkl() == key@.len());
                assert(self.builder.est_size() == key@.len() + value@.len() + 12);
                assert(self.done_entries() == mid.done_entries());
                assert(self.all_entries() =~= mid.all_entries().push((key@, value@)));
                if mid.blocks@.len() > 0 {
                    assert(mid.all_entries().last() == old(self).all_entries().last());
                    assert(mid.all_entries().len() > 0);
                    assert(mid.done_entries().last() == mid.all_entries().last());
                    assert(mid.blocks@.last()@.last() == mid.done_entries().last()) by {
                        lemma_cat_last(mid.bviews());
                        assert(mid.bviews().last() == mid.blocks@.last()@);
                    }
                }
            }
            Ok(())
        }
    }

    /// Assemble the table: seal the last block, then lay out the block
    /// encodings, the meta section and the trailer.
    #[verifier::rlimit(100)]
    pub fn build(self, id: usize) -> (t: SsTable)
        requires
            self.wf(),
            self.all_entries().len() > 0,
        ensures
            t.wf(),
            t.id == id,
            t.entries() == self.all_entries(),
            t@ == map_of_entries(self.all_entries()),
            t.data@.len() == t.block_meta_offset + metas_bytes(metas_view(t.block_metas@)).len()
                + 4,
            t.data@.subrange(t.block_meta_offset as int, t.data@.len() - 4) == metas_bytes(
                metas_view(t.block_metas@),
            ),
            t.data@.subrange(t.data@.len() - 4, t.data@.len() as int) == le32(
                t.block_meta_offset as u32,
            ),
            forall|i: int|
                0 <= i < t.nb() ==> t.data@.subrange(#[trigger] t.block_lo(i), t.block_hi(i))
                    == block_encoding(
                    t.block_pair(i)->Some_0.0,
                    t.block_pair(i)->Some_0.1,
                    t.block_hi(i) - t.block_lo(i) - (t.block_pair(i)->Some_0.0.len() + 2 * t.block_pair(
                        i,
                    )->Some_0.1.len() + 6),
                ),
            forall|i: int|
                0 <= i < t.nb() ==> #[trigger] t.block_hi(i) - t.block_lo(i)
                    == self.block_size as int || (t.block_es(i).len() == 1 && t.block_hi(i)
                    - t.block_lo(i) > self.block_size),
    {
        let mut this = self;
        if !this.builder.is_empty() {
            this.finish_block();
        }
        proof {
            assert(this.all_entries() =~= this.done_entries());
            assert(this.blocks@.len() > 0) by {
                if this.blocks@.len() == 0 {
                    assert(this.bviews() =~= Seq::<Seq<(Seq<u8>, Seq<u8>)>>::empty());
                    assert(this.done_entries().len() == 0);
                }
            }
        }
        let nb = this.blocks.len();
        let mut data: Vec<u8> = Vec::new();
        let mut i: usize = 0;
        #[verifier::loop_isolation(false)]
        while i < nb
            invariant
                0 <= i <= nb,
                data@ == blocks_enc(this.blocks@.take(i as int)),
            decreases nb - i,
        {
            proof {
                assert(this.blocks@[i as int].wf());
            }
            let enc = this.blocks[i].encode();
            append_bytes(&mut data, &enc);
            proof {
                lemma_blocks_enc_push(this.blocks@.take(i as int), this.blocks@[i as int]);
                assert(this.blocks@.take(i as int).push(this.blocks@[i as int]) =~= this.blocks@
                    .take(i + 1));
            }
            i = i + 1;
        }
        proof {
            assert(this.blocks@.take(nb as int) =~= this.blocks@);
            assert(data@ == blocks_enc(this.blocks@));
        }
        encode_block_meta(&this.meta, &mut data);
        let meta_off = this.offset;
        push_u32(&mut data, meta_off as u32);
        let t = SsTable {
            id,
            data,
            block_metas: this.meta,
            block_meta_offset: meta_off,
        };
        proof {
            lemma_build_wf(t, this.blocks@);
            assert forall|bi: int|
                0 <= bi < t.nb() implies t.data@.subrange(#[trigger] t.block_lo(bi), t.block_hi(bi))
                    == block_encoding(
                    t.block_pair(bi)->Some_0.0,
                    t.block_pair(bi)->Some_0.1,
                    t.block_hi(bi) - t.block_lo(bi) - (t.block_pair(bi)->Some_0.0.len() + 2
                        * t.block_pair(bi)->Some_0.1.len() + 6),
                ) && (t.block_hi(bi) - t.block_lo(bi) == this.block_size as int || (t.block_es(
                    bi,
                ).len() == 1 && t.block_hi(bi) - t.block_lo(bi) > this.block_size)) by {
                let b = this.blocks@[bi];
                crate::block::lemma_block_encoding_len(b.data@, b.offsets@, b.padding as int);
                crate::block::lemma_block_entries_len(b.data@, b.offsets@);
                assert(t.block_pair(bi) == Some((b.data@, b.offsets@)));
                assert(t.block_hi(bi) - t.block_lo(bi) == block_cost(b));
                assert(b.padding as int == t.block_hi(bi) - t.block_lo(bi) - (b.data@.len() + 2
                    * b.offsets@.len() + 6));
            }
            assert(t.entries() == this.all_entries()) by {
                assert forall|j: int| 0 <= j < t.nb() implies t.blocks()[j] == this.bviews()[j] by {
                    assert(t.block_es(j) == this.blocks@[j]@);
                }
                assert(t.blocks() =~= this.bviews());
            }
        }
        t
    }
}

/// The last entry of a concatenation of non-empty runs is the last run's
/// last entry.
pub proof fn lemma_cat_last(bs: Seq<Seq<(Seq<u8>, Seq<u8>)>>)
    requires
        bs.len() > 0,
        forall|i: int| 0 <= i < bs.len() ==> (#[trigger] bs[i]).len() > 0,
    ensures
        cat_blocks(bs).len() > 0,
        cat_blocks(bs).last() == bs.last().last(),
    decreases bs.len(),
{
    if bs.len() == 1 {
        assert(cat_blocks(bs) == bs[0] + cat_blocks(bs.drop_first()));
        assert(bs.drop_first().len() == 0);
        assert(cat_blocks(bs) =~= bs[0]);
    } else {
        lemma_cat_last(bs.drop_first());
        assert(cat_blocks(bs) == bs[0] + cat_blocks(bs.drop_first()));
        assert(bs.drop_first().last() == bs.last());
    }
}

/// Re-establishes the builder's structural invariant after a block is
/// sealed.
#[verifier::rlimit(100)]
proof fn lemma_finish_block_shape(
    pre: SsTableBuilder,
    post: SsTableBuilder,
    blk: Block,
    oldblocks: Seq<Block>,
    oldmeta: Seq<BlockMeta>,
    oldoffset: int,
    fklen: int,
    elen: int,
)
    requires
        pre.wf_core(),
        pre.builder@.len() > 0,
        blk.wf(),
        blk@ == pre.builder@,
        blk.data@ == pre.builder.data@,
        blk.offsets@ == pre.builder.offsets@,
        oldblocks == pre.blocks@,
        oldmeta == pre.meta@,
        oldoffset == pre.offset as int,
        elen == block_encoding(blk.data@, blk.offsets@, blk.padding as int).len(),
        0 < fklen <= 0xFFFF,
        fklen == blk@[0].0.len(),
        post.blocks@ == pre.blocks@.push(blk),
        post.meta@.len() == pre.meta@.len() + 1,
        post.meta@ == pre.meta@.push(post.meta@.last()),
        post.meta@.last().offset as int == oldoffset,
        post.meta@.last().first_key@ == blk@[0].0,
        post.offset as int == oldoffset + elen,
        post.meta_size as int == pre.meta_size + 6 + fklen,
        post.builder.wf(),
        post.builder@ == Seq::<(Seq<u8>, Seq<u8>)>::empty(),
        post.builder.cap == post.block_size,
        post.block_size == pre.block_size,
        0 <= oldoffset <= 0xFFFF_FFFF,
        block_cost(blk) == pre.block_size || (blk@.len() == 1 && block_cost(blk)
            > pre.block_size),
    ensures
        post.wf_core(),
        post.all_entries() == pre.all_entries(),
{
    assert(post.bviews() =~= pre.bviews().push(blk@));
    lemma_cat_blocks_push(pre.bviews(), blk@);
    assert(post.done_entries() == pre.done_entries() + blk@);
    assert(post.all_entries() =~= pre.all_entries());
    lemma_blocks_enc_push(pre.blocks@, blk);
    assert(metas_view(post.meta@) =~= metas_view(pre.meta@).push(
        (oldoffset, blk@[0].0),
    ));
    lemma_metas_bytes_push(metas_view(pre.meta@), (oldoffset, blk@[0].0));
    assert(post.meta_size as int == metas_bytes(metas_view(post.meta@)).len());
    assert forall|i: int|
        0 <= i < post.meta@.len() implies (#[trigger] post.meta@[i]).first_key@
            == post.blocks@[i]@[0].0 && post.meta@[i].offset as int == blocks_enc(
            post.blocks@.take(i),
        ).len() by {
        if i < pre.meta@.len() {
            assert(post.meta@[i] == pre.meta@[i]);
            assert(post.blocks@[i] == pre.blocks@[i]);
            assert(post.blocks@.take(i) =~= pre.blocks@.take(i));
        } else {
            assert(post.blocks@.take(i) =~= pre.blocks@);
        }
    }
    assert forall|i: int|
        0 <= i < post.blocks@.len() - 1 implies lex_lt(
        (#[trigger] post.blocks@[i])@.last().0,
        post.blocks@[i + 1]@[0].0,
    ) by {
        if i < pre.blocks@.len() - 1 {
            assert(post.blocks@[i] == pre.blocks@[i] && post.blocks@[i + 1] == pre.blocks@[i + 1]);
        } else {
            if pre.blocks@.len() > 0 {
                assert(post.blocks@[i] == pre.blocks@.last());
                assert(lex_lt(pre.blocks@.last()@.last().0, pre.builder@[0].0));
            }
        }
    }
    assert(metas_wf(metas_view(post.meta@)));
}

/// The data layout places block `i`'s encoding exactly between its
/// recorded offset and the next one, so it decodes back.
proof fn lemma_build_block_at(t: SsTable, blocks: Seq<Block>, i: int)
    requires
        t.block_metas@.len() == blocks.len(),
        blocks.len() > 0,
        0 <= i < blocks.len(),
        forall|j: int| 0 <= j < blocks.len() ==> (#[trigger] blocks[j]).wf() && blocks[j]@.len() > 0,
        forall|j: int|
            0 <= j < t.block_metas@.len() ==> (#[trigger] t.block_metas@[j]).offset as int
                == blocks_enc(blocks.take(j)).len(),
        t.block_meta_offset as int == blocks_enc(blocks).len(),
        t.data@ == blocks_enc(blocks) + metas_bytes(metas_view(t.block_metas@)) + le32(
            t.block_meta_offset as u32,
        ),
    ensures
        t.block_lo(i) < t.block_hi(i) <= t.block_meta_offset,
        t.block_pair(i) == Some((blocks[i].data@, blocks[i].offsets@)),
        t.block_es(i) == blocks[i]@,
        t.data@.subrange(t.block_lo(i), t.block_hi(i)) == block_encoding(
            blocks[i].data@,
            blocks[i].offsets@,
            blocks[i].padding as int,
        ),
        t.block_hi(i) - t.block_lo(i) == block_cost(blocks[i]),
{
    lemma_blocks_enc_slice(blocks, i);
    crate::block::lemma_block_encoding_len(
        blocks[i].data@,
        blocks[i].offsets@,
        blocks[i].padding as int,
    );
    let benc = blocks_enc(blocks);
    let lo = blocks_enc(blocks.take(i)).len() as int;
    let hi = blocks_enc(blocks.take(i + 1)).len() as int;
    assert(t.block_lo(i) == lo);
    if i == t.nb() - 1 {
        assert(blocks.take(i + 1) =~= blocks);
        assert(t.block_hi(i) == hi);
    } else {
        assert(t.block_hi(i) == hi);
    }
    assert(t.data@.subrange(lo, hi) =~= benc.subrange(lo, hi));
    assert(t.data@.subrange(lo, hi) == block_encoding(
        blocks[i].data@,
        blocks[i].offsets@,
        blocks[i].padding as int,
    ));
    crate::block::lemma_block_round_trip(
        blocks[i].data@,
        blocks[i].offsets@,
        blocks[i].padding as int,
    );
}

/// Every block of the assembled layout sits at its recorded range and
/// decodes back to itself.
#[verifier::rlimit(100)]
#[verifier::spinoff_prover]
proof fn lemma_build_blocks_all(t: SsTable, blocks: Seq<Block>)
    requires
        t.block_metas@.len() == blocks.len(),
        blocks.len() > 0,
        forall|i: int| 0 <= i < blocks.len() ==> (#[trigger] blocks[i]).wf() && blocks[i]@.len() > 0,
        forall|i: int|
            0 <= i < t.block_metas@.len() ==> (#[trigger] t.block_metas@[i]).offset as int
                == blocks_enc(blocks.take(i)).len(),
        t.block_meta_offset as int == blocks_enc(blocks).len(),
        t.data@ == blocks_enc(blocks) + metas_bytes(metas_view(t.block_metas@)) + le32(
            t.block_meta_offset as u32,
        ),
    ensures
        forall|i: int|
            0 <= i < t.nb() ==> #[trigger] t.block_lo(i) < t.block_hi(i) <= t.block_meta_offset,
        forall|i: int|
            0 <= i < t.nb() ==> #[trigger] t.block_pair(i) == Some(
                (blocks[i].data@, blocks[i].offsets@),
            ),
        forall|i: int| 0 <= i < t.nb() ==> #[trigger] t.block_es(i) == blocks[i]@,
        forall|i: int|
            0 <= i < t.nb() ==> t.data@.subrange(#[trigger] t.block_lo(i), t.block_hi(i))
                == block_encoding(blocks[i].data@, blocks[i].offsets@, blocks[i].padding as int)
                && t.block_hi(i) - t.block_lo(i) == block_cost(blocks[i]),
{
    assert forall|i: int|
        0 <= i < t.nb() implies #[trigger] t.block_lo(i) < t.block_hi(i) <= t.block_meta_offset
            && t.block_pair(i) == Some((blocks[i].data@, blocks[i].offsets@)) && t.block_es(i)
            == blocks[i]@ && t.data@.subrange(t.block_lo(i), t.block_hi(i)) == block_encoding(
            blocks[i].data@,
            blocks[i].offsets@,
            blocks[i].padding as int,
        ) && t.block_hi(i) - t.block_lo(i) == block_cost(blocks[i]) by {
        lemma_build_block_at(t, blocks, i);
    }
}

/// The assembled byte layout forms a well-formed table.
#[verifier::rlimit(100)]
#[verifier::spinoff_prover]
proof fn lemma_build_wf(t: SsTable, blocks: Seq<Block>)
    requires
        t.block_metas@.len() == blocks.len(),
        blocks.len() > 0,
        forall|i: int| 0 <= i < blocks.len() ==> (#[trigger] blocks[i]).wf() && blocks[i]@.len() > 0,
        forall|i: int|
            0 <= i < t.block_metas@.len() ==> (#[trigger] t.block_metas@[i]).first_key@
                == blocks[i]@[0].0 && t.block_metas@[i].offset as int == blocks_enc(
                blocks.take(i),
            ).len(),
        forall|i: int|
            0 <= i < blocks.len() - 1 ==> lex_lt(
                (#[trigger] blocks[i])@.last().0,
                blocks[i + 1]@[0].0,
            ),
        metas_wf(metas_view(t.block_metas@)),
        t.block_meta_offset as int == blocks_enc(blocks).len(),
        t.data@ == blocks_enc(blocks) + metas_bytes(metas_view(t.block_metas@)) + le32(
            t.block_meta_offset as u32,
        ),
        t.data@.len() <= 0xFFFF_FFFF,
    ensures
        t.wf(),
        forall|i: int| 0 <= i < t.nb() ==> #[trigger] t.block_es(i) == blocks[i]@,
        forall|i: int|
            0 <= i < t.nb() ==> #[trigger] t.block_pair(i) == Some(
                (blocks[i].data@, blocks[i].offsets@),
            ),
        t.data@.len() == t.block_meta_offset + metas_bytes(metas_view(t.block_metas@)).len() + 4,
        t.data@.subrange(t.block_meta_offset as int, t.data@.len() - 4) == metas_bytes(
            metas_view(t.block_metas@),
        ),
        t.data@.subrange(t.data@.len() - 4, t.data@.len() as int) == le32(
            t.block_meta_offset as u32,
        ),
        forall|i: int|
            0 <= i < t.nb() ==> t.data@.subrange(#[trigger] t.block_lo(i), t.block_hi(i))
                == block_encoding(blocks[i].data@, blocks[i].offsets@, blocks[i].padding as int)
                && t.block_hi(i) - t.block_lo(i) == block_cost(blocks[i]),
{
    reveal(crate::table::sst_wf);
    let mv = metas_view(t.block_metas@);
    let msec = metas_bytes(mv);
    let benc = blocks_enc(blocks);
    assert(t.data@.len() == benc.len() + msec.len() + 4);
    assert(t.data@.subrange(t.block_meta_offset as int, t.data@.len() - 4) =~= msec);
    lemma_metas_round_trip(mv);
    assert(t.data@.subrange(t.data@.len() - 4, t.data@.len() as int) =~= le32(
        t.block_meta_offset as u32,
    ));
    assert(t.block_lo(0) == 0) by {
        assert(blocks.take(0) =~= Seq::<Block>::empty());
    }
    lemma_build_blocks_all(t, blocks);
    assert forall|i: int|
        0 <= i < t.nb() implies (#[trigger] t.block_es(i)).len() > 0 && t.fk(i) == t.block_es(
        i,
    )[0].0 by {
        assert(t.block_es(i) == blocks[i]@);
    }
    assert forall|i: int|
        0 <= i < t.nb() - 1 implies lex_lt(
        (#[trigger] t.block_es(i)).last().0,
        t.block_es(i + 1)[0].0,
    ) by {
        assert(t.block_es(i) == blocks[i]@ && t.block_es(i + 1) == blocks[i + 1]@);
    }
    assert forall|i: int| 0 <= i < t.nb() implies (#[trigger] t.block_pair(i)) is Some by {
        assert(t.block_pair(i) == Some((blocks[i].data@, blocks[i].offsets@)));
    }
    assert(crate::table::sst_wf(t));
}

/// Build a table from a sorted run of entries: feed each into the builder.
/// Succeeds exactly when the accumulated cost stays within the file-size
/// budget.
pub fn build_from_entries(entries: &Vec<(Vec<u8>, Vec<u8>)>, block_size: usize) -> (r: Result<
    SsTableBuilder,
    Error,
>)
    requires
        8 <= block_size <= 65536,
        forall|i: int, j: int|
            0 <= i < j < entries@.len() ==> lex_lt(
                (#[trigger] entries@[i]).0@,
                (#[trigger] entries@[j]).0@,
            ),
        forall|i: int|
            0 <= i < entries@.len() ==> 0 < (#[trigger] entries@[i]).0@.len() <= 0xFFFF
                && entries@[i].1@.len() <= 0xFFFF,
    ensures
        r matches Ok(b) ==> b.wf() && b.block_size == block_size && b.all_entries()
            == crate::mem_table::entries_view(entries@),
        r is Ok <==> feed(
            block_size as int,
            0,
            6,
            0,
            crate::mem_table::entries_view(entries@),
            0,
        ) is Some,
        r is Err ==> r == Result::<SsTableBuilder, Error>::Err(Error::InvariantViolation),
{
    let ghost es = crate::mem_table::entries_view(entries@);
    let n = entries.len();
    let mut b = SsTableBuilder::new(block_size);
    let mut i: usize = 0;
    proof {
        assert(b.all_entries() =~= es.take(0));
        assert(b.cur_fkl() == 0);
    }
    #[verifier::loop_isolation(false)]
    while i < n
        invariant
            0 <= i <= n,
            b.wf(),
            b.block_size == block_size,
            b.all_entries() == es.take(i as int),
            feed(block_size as int, 0, 6, 0, es, 0) == feed(
                block_size as int,
                b.offset + b.meta_size,
                b.builder.est_size(),
                b.cur_fkl(),
                es,
                i as int,
            ),
        decreases n - i,
    {
        proof {
            assert(es[i as int] == (entries@[i as int].0@, entries@[i as int].1@));
            if i > 0 {
                assert(b.all_entries().last() == es[i - 1]);
                assert(lex_lt(es[i - 1].0, es[i as int].0));
            }
        }
        let ghost pre = b;
        match b.add(&entries[i].0, &entries[i].1) {
            Ok(_) => {},
            Err(e) => {
                proof {
                    assert(feed_step(
                        block_size as int,
                        pre.offset + pre.meta_size,
                        pre.builder.est_size(),
                        pre.cur_fkl(),
                        es[i as int].0.len() as int,
                        es[i as int].1.len() as int,
                    ) is None);
                    assert(feed(
                        block_size as int,
                        pre.offset + pre.meta_size,
                        pre.builder.est_size(),
                        pre.cur_fkl(),
                        es,
                        i as int,
                    ) is None);
                }
                return Err(e);
            },
        }
        proof {
            assert(es.take(i as int).push(es[i as int]) =~= es.take(i + 1));
            assert(feed(
                block_size as int,
                pre.offset + pre.meta_size,
                pre.builder.est_size(),
                pre.cur_fkl(),
                es,
                i as int,
            ) == feed(
                block_size as int,
                b.offset + b.meta_size,
                b.builder.est_size(),
                b.cur_fkl(),
                es,
                i + 1,
            ));
        }
        i = i + 1;
    }
    Ok(b)
}

} // verus!