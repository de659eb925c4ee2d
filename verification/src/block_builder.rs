//! Builds a block: entries are appended in ascending key order until the
//! encoded size would pass the target capacity.

use vstd::prelude::*;

use crate::block::{
    append_bytes, block_entries, block_wf, entries_sorted, entry_end, lemma_block_nonempty, entry_fits, entry_key, entry_klen, entry_val,
    entry_vlen, le16, lemma_block_empty, lemma_le16_val, lemma_sorted_push, offsets_tile, push_u16,
    Block,
};
use crate::keys::lex_lt;

verus! {

/// Entry reads below the original length are unchanged when the buffer
/// grows.
proof fn lemma_entry_reads_extend(data: Seq<u8>, ext: Seq<u8>, off: int)
    requires
        0 <= off,
        off + 2 <= data.len(),
        off + 4 + entry_klen(data, off) <= data.len(),
        entry_end(data, off) <= data.len(),
    ensures
        entry_klen(data + ext, off) == entry_klen(data, off),
        entry_vlen(data + ext, off) == entry_vlen(data, off),
        entry_end(data + ext, off) == entry_end(data, off),
        entry_key(data + ext, off) == entry_key(data, off),
        entry_val(data + ext, off) == entry_val(data, off),
        entry_fits(data + ext, off, data.len() as int),
{
    let nd = data + ext;
    assert(nd[off] == data[off] && nd[off + 1] == data[off + 1]);
    let k = entry_klen(data, off);
    assert(nd[off + 2 + k] == data[off + 2 + k] && nd[off + 3 + k] == data[off + 3 + k]);
    assert(entry_key(nd, off) =~= entry_key(data, off));
    assert(entry_val(nd, off) =~= entry_val(data, off));
}

/// An entry appended at the end of the buffer parses back to its key and
/// value.
proof fn lemma_new_entry(data: Seq<u8>, key: Seq<u8>, value: Seq<u8>)
    requires
        key.len() <= 0xFFFF,
        value.len() <= 0xFFFF,
    ensures
        ({
            let nd = data + le16(key.len() as u16) + key + le16(value.len() as u16) + value;
            let off = data.len() as int;
            &&& entry_klen(nd, off) == key.len()
            &&& entry_vlen(nd, off) == value.len()
            &&& entry_key(nd, off) == key
            &&& entry_val(nd, off) == value
            &&& entry_end(nd, off) == nd.len()
            &&& entry_fits(nd, off, nd.len() as int)
        }),
{
    let nd = data + le16(key.len() as u16) + key + le16(value.len() as u16) + value;
    let off = data.len() as int;
    lemma_le16_val(key.len() as u16);
    lemma_le16_val(value.len() as u16);
    assert(nd[off] == le16(key.len() as u16)[0] && nd[off + 1] == le16(key.len() as u16)[1]);
    assert(entry_klen(nd, off) == key.len());
    let k = key.len() as int;
    assert(nd[off + 2 + k] == le16(value.len() as u16)[0] && nd[off + 3 + k] == le16(
        value.len() as u16,
    )[1]);
    assert(entry_vlen(nd, off) == value.len());
    assert(entry_key(nd, off) =~= key);
    assert(entry_val(nd, off) =~= value);
}


/// Appending an entry with a larger key to a well-formed block keeps it
/// well-formed and pushes the entry onto the parsed sequence.
proof fn lemma_block_push_entry(od: Seq<u8>, ooffs: Seq<u16>, key: Seq<u8>, value: Seq<u8>)
    requires
        block_wf(od, ooffs),
        0 < key.len() <= 0xFFFF,
        value.len() <= 0xFFFF,
        block_entries(od, ooffs).len() > 0 ==> lex_lt(block_entries(od, ooffs).last().0, key),
        od.len() + 4 + key.len() + value.len() <= 0x3FFFF,
        ooffs.len() + 1 <= 0xFFFF,
        od.len() <= 0xFFFF,
    ensures
        ({
            let nd = od + le16(key.len() as u16) + key + le16(value.len() as u16) + value;
            let noffs = ooffs.push(od.len() as u16);
            &&& block_wf(nd, noffs)
            &&& block_entries(nd, noffs) == block_entries(od, ooffs).push((key, value))
        }),
{
    let nd = od + le16(key.len() as u16) + key + le16(value.len() as u16) + value;
    let noffs = ooffs.push(od.len() as u16);
    let oes = block_entries(od, ooffs);
    lemma_block_push_tile(od, ooffs, key, value);
    lemma_sorted_push(oes, key, value);
}

/// Entry reads of a well-formed block are unchanged when bytes are
/// appended behind its data section.
proof fn lemma_entries_preserved(od: Seq<u8>, ooffs: Seq<u16>, ext: Seq<u8>)
    requires
        block_wf(od, ooffs),
    ensures
        forall|i: int|
            0 <= i < ooffs.len() ==> entry_fits(od + ext, #[trigger] ooffs[i] as int, od.len() as int)
                && entry_end(od + ext, ooffs[i] as int) == entry_end(od, ooffs[i] as int)
                && entry_key(od + ext, ooffs[i] as int) == entry_key(od, ooffs[i] as int)
                && entry_val(od + ext, ooffs[i] as int) == entry_val(od, ooffs[i] as int),
{
    reveal(offsets_tile);
    assert forall|i: int|
        0 <= i < ooffs.len() implies entry_fits(od + ext, #[trigger] ooffs[i] as int, od.len() as int)
            && entry_end(od + ext, ooffs[i] as int) == entry_end(od, ooffs[i] as int)
            && entry_key(od + ext, ooffs[i] as int) == entry_key(od, ooffs[i] as int)
            && entry_val(od + ext, ooffs[i] as int) == entry_val(od, ooffs[i] as int) by {
        assert(entry_fits(od, ooffs[i] as int, od.len() as int));
        lemma_entry_reads_extend(od, ext, ooffs[i] as int);
    }
}

/// The structural half of appending an entry: the new offset table tiles
/// the grown data section and the parsed entries gain exactly the new pair.
#[verifier::rlimit(100)]
proof fn lemma_block_push_tile(od: Seq<u8>, ooffs: Seq<u16>, key: Seq<u8>, value: Seq<u8>)
    requires
        block_wf(od, ooffs),
        0 < key.len() <= 0xFFFF,
        value.len() <= 0xFFFF,
        od.len() + 4 + key.len() + value.len() <= 0x3FFFF,
        ooffs.len() + 1 <= 0xFFFF,
        od.len() <= 0xFFFF,
    ensures
        ({
            let nd = od + le16(key.len() as u16) + key + le16(value.len() as u16) + value;
            let noffs = ooffs.push(od.len() as u16);
            &&& nd.len() <= 0x3FFFF
            &&& noffs.len() <= 0xFFFF
            &&& offsets_tile(nd, noffs)
            &&& block_entries(nd, noffs) == block_entries(od, ooffs).push((key, value))
        }),
{
    let nd = od + le16(key.len() as u16) + key + le16(value.len() as u16) + value;
    let noffs = ooffs.push(od.len() as u16);
    let ext = le16(key.len() as u16) + key + le16(value.len() as u16) + value;
    assert(nd =~= od + ext);
    lemma_new_entry(od, key, value);
    lemma_entries_preserved(od, ooffs, ext);
    let n = ooffs.len() as int;
    assert(offsets_tile(nd, noffs)) by {
        reveal(offsets_tile);
        assert forall|j: int|
            0 <= j < noffs.len() implies entry_fits(nd, #[trigger] noffs[j] as int, nd.len() as int)
                && noffs[j] as int == (if j == 0 {
                0int
            } else {
                entry_end(nd, noffs[j - 1] as int)
            }) by {
            if j < n {
                assert(noffs[j] == ooffs[j]);
                assert(entry_fits(nd, ooffs[j] as int, od.len() as int));
                if j > 0 {
                    assert(entry_end(nd, noffs[j - 1] as int) == entry_end(od, ooffs[j - 1] as int));
                }
            } else {
                assert(noffs[j] as int == od.len());
                if j > 0 {
                    assert(entry_end(nd, noffs[j - 1] as int) == entry_end(od, ooffs[j - 1] as int));
                }
            }
        }
        assert(nd.len() as int == entry_end(nd, noffs[noffs.len() - 1] as int));
    }
    assert(block_entries(nd, noffs) == block_entries(od, ooffs).push((key, value))) by {
        reveal(block_entries);
        let oes = block_entries(od, ooffs);
        let nes = block_entries(nd, noffs);
        assert forall|j: int| 0 <= j < nes.len() implies nes[j] == oes.push((key, value))[j] by {
            if j < n {
                assert(noffs[j] == ooffs[j]);
            }
        }
        assert(nes =~= oes.push((key, value)));
    }
}

/// Builds a block of at most `cap` encoded bytes.
pub struct BlockBuilder {
    pub cap: usize,
    pub data: Vec<u8>,
    pub offsets: Vec<u16>,
}

impl View for BlockBuilder {
    type V = Seq<(Seq<u8>, Seq<u8>)>;

    open spec fn view(&self) -> Seq<(Seq<u8>, Seq<u8>)> {
        block_entries(self.data@, self.offsets@)
    }
}

impl BlockBuilder {
    /// The encoded size the block would have without padding: data bytes,
    /// two offset bytes per entry, the count and the checksum.
    pub open spec fn est_size(&self) -> int {
        self.data@.len() + 2 * self.offsets@.len() + 6int
    }

    /// Builder invariant: the accumulated sections form a well-formed block
    /// and, once more than one entry is present, fit the capacity.
    pub open spec fn wf(&self) -> bool {
        &&& block_wf(self.data@, self.offsets@)
        &&& self.cap <= 65536
        &&& self.offsets@.len() >= 2 ==> self.est_size() <= self.cap
    }

    /// Create an empty builder with target capacity `block_size` bytes.
    pub fn new(block_size: usize) -> (r: BlockBuilder)
        requires
            block_size <= 65536,
        ensures
            r.wf(),
            r@ == Seq::<(Seq<u8>, Seq<u8>)>::empty(),
            r.cap == block_size,
            r.data@.len() == 0,
            r.offsets@.len() == 0,
    {
        let r = BlockBuilder { cap: block_size, data: Vec::new(), offsets: Vec::new() };
        proof {
            reveal(offsets_tile);
            reveal(block_entries);
            reveal(entries_sorted);
            assert(r@ =~= Seq::<(Seq<u8>, Seq<u8>)>::empty());
        }
        r
    }

    /// Whether no entry has been added yet.
    pub fn is_empty(&self) -> (r: bool)
        ensures
            r == (self@.len() == 0),
    {
        proof {
            reveal(block_entries);
        }
        self.offsets.len() == 0
    }

    /// The encoded size the block would have without padding.
    pub fn size(&self) -> (r: usize)
        requires
            self.wf(),
        ensures
            r == self.est_size(),
    {
        self.data.len() + 2 * self.offsets.len() + 6
    }

    /// Append an entry.  Returns false, leaving the builder unchanged, when
    /// the entry would push the encoded size past the capacity; the first
    /// entry is accepted unconditionally.  Keys must arrive in strictly
    /// ascending order.
    pub fn add(&mut self, key: &Vec<u8>, value: &Vec<u8>) -> (r: bool)
        requires
            old(self).wf(),
            0 < key@.len() <= 0xFFFF,
            value@.len() <= 0xFFFF,
            old(self)@.len() > 0 ==> lex_lt(old(self)@.last().0, key@),
        ensures
            final(self).wf(),
            final(self).cap == old(self).cap,
            r == (old(self)@.len() == 0 || old(self).est_size() + key@.len() + value@.len() + 6
                <= old(self).cap),
            r ==> final(self)@ == old(self)@.push((key@, value@)) && final(self).est_size() == old(
                self,
            ).est_size() + key@.len() + value@.len() + 6,
            !r ==> *final(self) == *old(self),
    {
        proof {
            crate::block::lemma_block_entries_len(self.data@, self.offsets@);
        }
        let n = self.offsets.len();
        if n > 0 && self.size() + key.len() + value.len() + 6 > self.cap {
            return false;
        }
        let ghost od = self.data@;
        let ghost ooffs = self.offsets@;
        let off = self.data.len() as u16;
        self.offsets.push(off);
        push_u16(&mut self.data, key.len() as u16);
        append_bytes(&mut self.data, key);
        push_u16(&mut self.data, value.len() as u16);
        append_bytes(&mut self.data, value);
        proof {
            if ooffs.len() == 0 {
                lemma_block_empty(od, ooffs);
            }
            lemma_block_push_entry(od, ooffs, key@, value@);
            assert(self.data@ == od + le16(key@.len() as u16) + key@ + le16(value@.len() as u16)
                + value@);
            assert(self.offsets@ == ooffs.push(od.len() as u16));
        }
        true
    }

    /// Finalise the block: the padding fills the buffer up to the capacity
    /// (none is added when a single oversized entry passed it).  The encoded
    /// block is exactly `cap` bytes whenever the entries fit the capacity.
    pub fn build(self) -> (b: Block)
        requires
            self.wf(),
        ensures
            b.wf(),
            b@ == self@,
            b.data@ == self.data@,
            b.offsets@ == self.offsets@,
            b.padding as int == if self.est_size() <= self.cap {
                self.cap - self.est_size()
            } else {
                0int
            },
            self.est_size() <= self.cap ==> b.data@.len() + b.padding + 2 * b.offsets@.len() + 6
                == self.cap,
    {
        let used = self.size();
        let padding: usize = if used <= self.cap {
            self.cap - used
        } else {
            0
        };
        Block { data: self.data, offsets: self.offsets, padding: padding as u16 }
    }
}


/// A block builder is empty exactly when its estimated size is the bare
/// six bytes of count and checksum.
pub proof fn lemma_builder_empty_iff(b: &BlockBuilder)
    requires
        b.wf(),
    ensures
        (b@.len() == 0 <==> b.est_size() == 6),
        b@.len() == 0 <==> b.data@.len() == 0,
{
    crate::block::lemma_block_entries_len(b.data@, b.offsets@);
    if b.offsets@.len() == 0 {
        lemma_block_empty(b.data@, b.offsets@);
    } else {
        crate::block::lemma_block_nonempty(b.data@, b.offsets@);
    }
}

} // verus!
