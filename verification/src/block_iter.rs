//! Iterates over the entries of one block, in key order.

use vstd::prelude::*;

use crate::block::{
    copy_range, lemma_block_entries_len, lemma_block_entry_at, lemma_entries_sorted_pairs, u16_at,
    Block,
};
use crate::keys::{
    key_cmp, lex_le, lex_lt, lemma_lex_le_lt_trans, lemma_lex_trans, KeyOrd,
};

verus! {

/// Read the key of entry `i` of a block.
pub fn read_key_at(block: &Block, i: usize) -> (r: Vec<u8>)
    requires
        block.wf(),
        i < block@.len(),
    ensures
        r@ == block@[i as int].0,
{
    proof {
        lemma_block_entries_len(block.data@, block.offsets@);
        lemma_block_entry_at(block.data@, block.offsets@, i as int);
    }
    let off = block.offsets[i] as usize;
    let klen = u16_at(&block.data, off) as usize;
    copy_range(&block.data, off + 2, off + 2 + klen)
}

/// Read the value of entry `i` of a block.
pub fn read_val_at(block: &Block, i: usize) -> (r: Vec<u8>)
    requires
        block.wf(),
        i < block@.len(),
    ensures
        r@ == block@[i as int].1,
{
    proof {
        lemma_block_entries_len(block.data@, block.offsets@);
        lemma_block_entry_at(block.data@, block.offsets@, i as int);
    }
    let off = block.offsets[i] as usize;
    let klen = u16_at(&block.data, off) as usize;
    let vlen = u16_at(&block.data, off + 2 + klen) as usize;
    copy_range(&block.data, off + 4 + klen, off + 4 + klen + vlen)
}

/// An iterator over a block's entries.  `idx` is the current position; the
/// iterator is valid while `idx` lies before the entry count, and the
/// current key and value are cached.  Once it runs off the end it stays
/// invalid.
pub struct BlockIterator {
    pub block: Block,
    pub idx: usize,
    pub key: Vec<u8>,
    pub value: Vec<u8>,
}

impl BlockIterator {
    /// Iterator invariant.
    pub open spec fn inv(&self) -> bool {
        &&& self.block.wf()
        &&& self.idx <= self.block@.len()
        &&& self.idx < self.block@.len() ==> self.key@ == self.block@[self.idx as int].0
            && self.value@ == self.block@[self.idx as int].1
        &&& self.idx == self.block@.len() ==> self.key@.len() == 0
    }

    /// The entries the iterator has not yet passed, in order.
    pub open spec fn entries(&self) -> Seq<(Seq<u8>, Seq<u8>)> {
        self.block@.skip(self.idx as int)
    }

    /// Whether the iterator points at an entry.
    pub fn is_valid(&self) -> (r: bool)
        requires
            self.inv(),
        ensures
            r == (self.entries().len() > 0),
    {
        proof {
            lemma_block_entries_len(self.block.data@, self.block.offsets@);
        }
        self.idx < self.block.offsets.len()
    }

    /// The current key.
    pub fn key(&self) -> (k: &Vec<u8>)
        requires
            self.inv(),
            self.entries().len() > 0,
        ensures
            k@ == self.entries()[0].0,
    {
        &self.key
    }

    /// The current value.
    pub fn value(&self) -> (v: &Vec<u8>)
        requires
            self.inv(),
            self.entries().len() > 0,
        ensures
            v@ == self.entries()[0].1,
    {
        &self.value
    }

    /// Position the iterator at entry `idx`, loading its key and value;
    /// positions at or past the entry count make the iterator invalid.
    fn seek_to(&mut self, idx: usize)
        requires
            old(self).inv(),
            idx <= old(self).block@.len(),
        ensures
            final(self).inv(),
            final(self).block == old(self).block,
            final(self).idx == idx,
    {
        proof {
            lemma_block_entries_len(old(self).block.data@, old(self).block.offsets@);
        }
        self.idx = idx;
        if idx < self.block.offsets.len() {
            self.key = read_key_at(&self.block, idx);
            self.value = read_val_at(&self.block, idx);
        } else {
            self.key = Vec::new();
            self.value = Vec::new();
        }
    }

    /// Seek to the first entry.
    pub fn seek_to_first(&mut self)
        requires
            old(self).inv(),
        ensures
            final(self).inv(),
            final(self).block == old(self).block,
            final(self).entries() == final(self).block@,
    {
        self.seek_to(0);
        proof {
            assert(self.block@.skip(0) =~= self.block@);
        }
    }

    /// Create an iterator positioned at the first entry of the block.
    pub fn create_and_seek_to_first(block: Block) -> (r: BlockIterator)
        requires
            block.wf(),
        ensures
            r.inv(),
            r.block == block,
            r.entries() == block@,
    {
        proof {
            lemma_block_entries_len(block.data@, block.offsets@);
        }
        let mut it = BlockIterator { block, idx: 0, key: Vec::new(), value: Vec::new() };
        if it.block.offsets.len() == 0 {
            proof {
                assert(it.inv());
            }
        } else {
            it.key = read_key_at(&it.block, 0);
            it.value = read_val_at(&it.block, 0);
        }
        proof {
            assert(it.block@.skip(0) =~= it.block@);
        }
        return it;
    }

    /// Advance past the current entry.  Once invalid, the iterator stays
    /// invalid and `next` does nothing.
    pub fn next(&mut self)
        requires
            old(self).inv(),
        ensures
            final(self).inv(),
            final(self).block == old(self).block,
            old(self).entries().len() > 0 ==> final(self).entries() == old(self).entries()
                .drop_first(),
            old(self).entries().len() == 0 ==> final(self).entries() == old(self).entries(),
    {
        proof {
            lemma_block_entries_len(self.block.data@, self.block.offsets@);
        }
        if self.idx < self.block.offsets.len() {
            let i = self.idx;
            self.seek_to(i + 1);
            proof {
                assert(self.block@.skip(i + 1) =~= self.block@.skip(i as int).drop_first());
            }
        }
    }

    /// Seek to the first entry whose key is at or above `key` (the lower
    /// bound); past-the-end when every key is below it.
    pub fn seek_to_key(&mut self, key: &Vec<u8>)
        requires
            old(self).inv(),
        ensures
            final(self).inv(),
            final(self).block == old(self).block,
            final(self).idx <= final(self).block@.len(),
            forall|j: int|
                0 <= j < final(self).idx ==> lex_lt(#[trigger] final(self).block@[j].0, key@),
            final(self).idx < final(self).block@.len() ==> lex_le(
                key@,
                final(self).block@[final(self).idx as int].0,
            ),
    {
        proof {
            lemma_entries_sorted_pairs(self.block.data@, self.block.offsets@);
            lemma_block_entries_len(self.block.data@, self.block.offsets@);
        }
        let n = self.block.offsets.len();
        let ghost es = self.block@;
        let mut lo: usize = 0;
        let mut hi: usize = n;
        while lo < hi
            invariant
                0 <= lo <= hi <= n,
                n == es.len(),
                es == self.block@,
                self.inv(),
                forall|j: int| 0 <= j < lo ==> lex_lt(#[trigger] es[j].0, key@),
                forall|j: int| hi <= j < n ==> lex_le(key@, #[trigger] es[j].0),
                forall|i: int, j: int| 0 <= i < j < es.len() ==> lex_lt(#[trigger] es[i].0, #[trigger] es[j].0),
            decreases hi - lo,
        {
            let mid = lo + (hi - lo) / 2;
            let mk = read_key_at(&self.block, mid);
            match key_cmp(&mk, key) {
                KeyOrd::Less => {
                    proof {
                        assert forall|j: int| 0 <= j < mid + 1 implies lex_lt(
                            #[trigger] es[j].0,
                            key@,
                        ) by {
                            if j < mid {
                                lemma_lex_trans(es[j].0, es[mid as int].0, key@);
                            }
                        }
                    }
                    lo = mid + 1;
                },
                _ => {
                    proof {
                        assert(lex_le(key@, es[mid as int].0));
                        assert forall|j: int| mid <= j < n implies lex_le(
                            key@,
                            #[trigger] es[j].0,
                        ) by {
                            if j > mid {
                                lemma_lex_le_lt_trans(key@, es[mid as int].0, es[j].0);
                            }
                        }
                    }
                    hi = mid;
                },
            }
        }
        self.seek_to(lo);
    }

    /// Create an iterator positioned at the first entry with key at or
    /// above `key`.
    pub fn create_and_seek_to_key(block: Block, key: &Vec<u8>) -> (r: BlockIterator)
        requires
            block.wf(),
        ensures
            r.inv(),
            r.block == block,
            r.idx <= block@.len(),
            forall|j: int| 0 <= j < r.idx ==> lex_lt(#[trigger] block@[j].0, key@),
            r.idx < block@.len() ==> lex_le(key@, block@[r.idx as int].0),
    {
        let mut it = BlockIterator::create_and_seek_to_first(block);
        it.seek_to_key(key);
        it
    }
}

} // verus!
