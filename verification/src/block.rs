//! The block: the smallest unit of read and caching.
//!
//! A block is a sorted run of key/value entries packed into a fixed-size byte
//! buffer:
//!
//! `| entry #1 | ... | entry #N | padding 00..00 | offset #1 | ... | offset #N | N | crc32 |`
//!
//! Each entry is `key_len u16le | key | value_len u16le | value`; each offset
//! is the entry's byte position in the data section as `u16le`; `N` is the
//! entry count as `u16le`; the trailing CRC-32 (IEEE) is computed over the
//! data bytes, the offset bytes and the count bytes (the padding is not
//! covered and is never inspected).

use vstd::prelude::*;

use vstd::arithmetic::div_mod::{lemma_fundamental_div_mod, lemma_div_denominator};

use crate::keys::{key_cmp, lex_lt, lemma_lex_trans, KeyOrd};

verus! {

/// Errors surfaced by the store.
#[derive(Clone, Copy, Debug, PartialEq, Eq, Structural)]
pub enum Error {
    /// A stored byte sequence does not parse, or its checksum mismatches.
    Corruption,
    /// An argument breaks a documented rule (empty key, empty value on put,
    /// oversized key or value).
    InvariantViolation,
}

/// The value of a 16-bit little-endian integer stored as two bytes.
pub open spec fn u16_val(lo: u8, hi: u8) -> int {
    lo + 256 * hi
}

/// The two little-endian bytes of a 16-bit integer.
pub open spec fn le16(x: u16) -> Seq<u8> {
    seq![(x % 256) as u8, (x / 256) as u8]
}

/// The value of a 32-bit little-endian integer stored as four bytes.
pub open spec fn u32_val(b0: u8, b1: u8, b2: u8, b3: u8) -> int {
    b0 + 256 * b1 + 65536 * b2 + 16777216 * b3
}

/// The four little-endian bytes of a 32-bit integer.
pub open spec fn le32(x: u32) -> Seq<u8> {
    seq![(x % 256) as u8, ((x / 256) % 256) as u8, ((x / 65536) % 256) as u8, ((x / 16777216) % 256) as u8]
}

/// A run of zero bytes.
pub open spec fn zero_bytes(n: int) -> Seq<u8> {
    Seq::new(n as nat, |i: int| 0u8)
}

/// The offset section: each offset as two little-endian bytes.
pub open spec fn offsets_bytes(offs: Seq<u16>) -> Seq<u8>
    decreases offs.len(),
{
    if offs.len() == 0 {
        Seq::empty()
    } else {
        le16(offs[0]) + offsets_bytes(offs.drop_first())
    }
}

/// The key length stored in the entry header at `off`.
pub open spec fn entry_klen(data: Seq<u8>, off: int) -> int {
    u16_val(data[off], data[off + 1])
}

/// The value length stored behind the key of the entry at `off`.
pub open spec fn entry_vlen(data: Seq<u8>, off: int) -> int {
    u16_val(data[off + 2 + entry_klen(data, off)], data[off + 3 + entry_klen(data, off)])
}

/// The position one past the entry that starts at `off`.
pub open spec fn entry_end(data: Seq<u8>, off: int) -> int {
    off + 4 + entry_klen(data, off) + entry_vlen(data, off)
}

/// The key bytes of the entry at `off`.
pub open spec fn entry_key(data: Seq<u8>, off: int) -> Seq<u8> {
    data.subrange(off + 2, off + 2 + entry_klen(data, off))
}

/// The value bytes of the entry at `off`.
pub open spec fn entry_val(data: Seq<u8>, off: int) -> Seq<u8> {
    data.subrange(
        off + 4 + entry_klen(data, off),
        off + 4 + entry_klen(data, off) + entry_vlen(data, off),
    )
}

/// The entry at `off` lies entirely within the first `lim` bytes.
pub open spec fn entry_fits(data: Seq<u8>, off: int, lim: int) -> bool {
    &&& 0 <= off
    &&& off + 2 <= lim
    &&& off + 4 + entry_klen(data, off) <= lim
    &&& entry_end(data, off) <= lim
}

/// The offsets tile the data section exactly: the first entry starts at
/// zero, each entry starts where the previous one ends, every entry lies
/// within the data section, and the last entry ends at its end.
#[verifier::opaque]
pub open spec fn offsets_tile(data: Seq<u8>, offsets: Seq<u16>) -> bool {
    &&& forall|i: int|
        0 <= i < offsets.len() ==> entry_fits(data, #[trigger] offsets[i] as int, data.len() as int)
    &&& forall|i: int|
        0 <= i < offsets.len() ==> (#[trigger] offsets[i]) as int == if i == 0 {
            0
        } else {
            entry_end(data, offsets[i - 1] as int)
        }
    &&& data.len() as int == if offsets.len() == 0 {
        0
    } else {
        entry_end(data, offsets[offsets.len() - 1] as int)
    }
}

/// The parsed entries of a data section, in offset order.
#[verifier::opaque]
pub open spec fn block_entries(data: Seq<u8>, offsets: Seq<u16>) -> Seq<(Seq<u8>, Seq<u8>)> {
    Seq::new(
        offsets.len(),
        |i: int| (entry_key(data, offsets[i] as int), entry_val(data, offsets[i] as int)),
    )
}

/// Entries carry non-empty keys in strictly ascending order.
#[verifier::opaque]
pub open spec fn entries_sorted(es: Seq<(Seq<u8>, Seq<u8>)>) -> bool {
    &&& forall|i: int, j: int| 0 <= i < j < es.len() ==> lex_lt(#[trigger] es[i].0, #[trigger] es[j].0)
    &&& forall|i: int| 0 <= i < es.len() ==> (#[trigger] es[i]).0.len() > 0
}

/// A well-formed data section and offset table.
pub open spec fn block_wf(data: Seq<u8>, offsets: Seq<u16>) -> bool {
    &&& data.len() <= 0x3FFFF
    &&& offsets.len() <= 0xFFFF
    &&& offsets_tile(data, offsets)
    &&& entries_sorted(block_entries(data, offsets))
}

/// The checksummed portion of a block: data, offset section, count.
pub open spec fn crc_input(data: Seq<u8>, offsets: Seq<u16>) -> Seq<u8> {
    data + offsets_bytes(offsets) + le16(offsets.len() as u16)
}

/// The full encoding of a block with a given amount of padding.
pub open spec fn block_encoding(data: Seq<u8>, offsets: Seq<u16>, padding: int) -> Seq<u8> {
    data + zero_bytes(padding) + offsets_bytes(offsets) + le16(offsets.len() as u16) + le32(
        crc32_of(crc_input(data, offsets)),
    )
}

/// The IEEE CRC-32 of a byte sequence, as `crc32fast` computes it: a
/// function of the bytes alone.
pub uninterp spec fn crc32_of(bytes: Seq<u8>) -> u32;

/// Relies on `crc32fast::hash` to compute the IEEE CRC-32 of the bytes; the
/// result depends on the bytes alone.
#[verifier::external_body]
fn crc32(bytes: &Vec<u8>) -> (r: u32)
    ensures
        r == crc32_of(bytes@),
{
    crc32fast::hash(bytes.as_slice())
}

/// A decoded block: the packed entry data and the offset table.  `padding`
/// records how many zero bytes sit between the data and offset sections so
/// that the encoded length is exactly the builder's capacity.
pub struct Block {
    pub data: Vec<u8>,
    pub offsets: Vec<u16>,
    pub padding: u16,
}

impl View for Block {
    type V = Seq<(Seq<u8>, Seq<u8>)>;

    open spec fn view(&self) -> Seq<(Seq<u8>, Seq<u8>)> {
        block_entries(self.data@, self.offsets@)
    }
}

impl Block {
    /// Structural and ordering invariant of a block.
    pub open spec fn wf(&self) -> bool {
        block_wf(self.data@, self.offsets@)
    }

    /// The number of entries.
    pub open spec fn num_entries(&self) -> int {
        self.offsets@.len() as int
    }

    /// The encoded length of the block.
    pub fn len(&self) -> (r: usize)
        requires
            self.wf(),
        ensures
            r == self.data@.len() + self.padding + 2 * self.offsets@.len() + 6,
            r == block_encoding(self.data@, self.offsets@, self.padding as int).len(),
    {
        proof {
            lemma_block_encoding_len(self.data@, self.offsets@, self.padding as int);
        }
        self.data.len() + self.padding as usize + self.offsets.len() * 2 + 6
    }

    /// The bytes of the length-prefixed field that starts at byte `pos` of
    /// the data section, without the two-byte prefix.
    pub fn slice_at(&self, pos: usize) -> (r: Vec<u8>)
        requires
            pos + 2 <= self.data@.len(),
            pos + 2 + u16_val(self.data@[pos as int], self.data@[pos + 1]) <= self.data@.len(),
        ensures
            r@ == entry_key(self.data@, pos as int),
    {
        let n = self.data.len();
        let klen = u16_at(&self.data, pos) as usize;
        copy_range(&self.data, pos + 2, pos + 2 + klen)
    }

    /// Encode the block: data, padding, offsets, count, CRC-32.
    pub fn encode(&self) -> (r: Vec<u8>)
        requires
            self.wf(),
        ensures
            r@ == block_encoding(self.data@, self.offsets@, self.padding as int),
    {
        let mut buf: Vec<u8> = Vec::new();
        append_bytes(&mut buf, &self.data);
        append_zeros(&mut buf, self.padding as usize);
        append_offsets(&mut buf, &self.offsets);
        push_u16(&mut buf, self.offsets.len() as u16);
        let mut ci: Vec<u8> = Vec::new();
        append_bytes(&mut ci, &self.data);
        append_offsets(&mut ci, &self.offsets);
        push_u16(&mut ci, self.offsets.len() as u16);
        assert(ci@ =~= crc_input(self.data@, self.offsets@));
        let sum = crc32(&ci);
        push_u32(&mut buf, sum);
        proof {
            assert(buf@ =~= block_encoding(self.data@, self.offsets@, self.padding as int));
        }
        buf
    }

    /// Decode a block from an encoded buffer.  Succeeds exactly when the
    /// buffer parses as a block: the count and offset table are read from
    /// the tail, the entry headers are walked and must tile the data
    /// section, entries must carry non-empty keys in strictly ascending
    /// order, the sections must fit the on-wire size limits, and the stored
    /// CRC-32 must match.
    pub fn decode(bytes: &Vec<u8>) -> (r: Result<Block, Error>)
        ensures
            r is Ok <==> spec_decode(bytes@) is Some,
            r is Err ==> r == Result::<Block, Error>::Err(Error::Corruption),
            r matches Ok(b) ==> spec_decode(bytes@) == Some((b.data@, b.offsets@)) && b.wf()
                && b.data@.len() + b.padding + 2 * b.offsets@.len() + 6 == bytes@.len(),
    {
        proof {
            reveal(spec_decode);
        }
        let n = bytes.len();
        if n < 6 {
            return Err(Error::Corruption);
        }
        let count = u16_at(bytes, n - 6) as usize;
        if n - 6 < 2 * count {
            return Err(Error::Corruption);
        }
        let lim = n - 6 - 2 * count;
        let offsets = parse_offset_table(bytes, lim, count);
        let dend = match walk_chain(bytes, &offsets, lim) {
            Some(d) => d,
            None => {
                return Err(Error::Corruption);
            },
        };
        if lim - dend > 0xFFFF {
            return Err(Error::Corruption);
        }
        finish_decode(bytes, offsets, count, lim, dend)
    }
}

/// The second half of decoding: order, size and checksum checks, and the
/// assembly of the block value.
#[verifier::rlimit(100)]
fn finish_decode(bytes: &Vec<u8>, offsets: Vec<u16>, count: usize, lim: usize, dend: usize) -> (r:
    Result<Block, Error>)
    requires
        bytes@.len() >= 6,
        count as int == u16_val(bytes@[bytes@.len() - 6], bytes@[bytes@.len() - 5]),
        bytes@.len() - 6 >= 2 * count,
        lim as int == bytes@.len() - 6 - 2 * count,
        offsets@ == section_offsets(bytes@, lim as int, count as int),
        chain_from(bytes@, lim as int, offsets@, 0, 0) == Some(dend as int),
        lim - dend <= 0xFFFF,
        dend <= lim,
    ensures
        r is Ok <==> spec_decode(bytes@) is Some,
        r is Err ==> r == Result::<Block, Error>::Err(Error::Corruption),
        r matches Ok(b) ==> spec_decode(bytes@) == Some((b.data@, b.offsets@)) && b.wf()
            && b.data@.len() + b.padding + 2 * b.offsets@.len() + 6 == bytes@.len(),
{
    proof {
        reveal(spec_decode);
    }
    let n = bytes.len();
    proof {
        lemma_chain_prefix(bytes@, lim as int, offsets@, dend as int);
    }
    let data = copy_range(bytes, 0, dend);
    if !check_entries(&data, &offsets) {
        return Err(Error::Corruption);
    }
    let mut ci = copy_range(bytes, 0, dend);
    let osec = copy_range(bytes, lim, lim + 2 * count);
    append_bytes(&mut ci, &osec);
    let cbytes = copy_range(bytes, n - 6, n - 4);
    append_bytes(&mut ci, &cbytes);
    proof {
        lemma_crc_sections(bytes@, lim as int, count as int);
        assert(osec@ == offsets_bytes(offsets@));
        assert(cbytes@ == le16(count as u16));
        assert(offsets@.len() as u16 == count as u16);
        assert(ci@ == data@ + offsets_bytes(offsets@) + le16(offsets@.len() as u16));
        assert(ci@ == crc_input(data@, offsets@));
    }
    let sum = crc32(&ci);
    let stored = u32_at(bytes, n - 4);
    if sum != stored {
        return Err(Error::Corruption);
    }
    let blk = Block { data, offsets, padding: (lim - dend) as u16 };
    proof {
        assert(blk.wf());
        assert(blk.data@ == bytes@.subrange(0, dend as int));
        lemma_decode_some(bytes@, count as int, lim as int, dend as int);
    }
    Ok(blk)
}

/// Append all bytes of `src` to `buf`.
pub fn append_bytes(buf: &mut Vec<u8>, src: &Vec<u8>)
    ensures
        final(buf)@ == old(buf)@ + src@,
{
    let mut i: usize = 0;
    while i < src.len()
        invariant
            0 <= i <= src@.len(),
            buf@ =~= old(buf)@ + src@.subrange(0, i as int),
        decreases src@.len() - i,
    {
        buf.push(src[i]);
        proof {
            assert(buf@ =~= old(buf)@ + src@.subrange(0, i + 1));
        }
        i = i + 1;
    }
    proof {
        assert(buf@ =~= old(buf)@ + src@);
    }
}

/// Append `n` zero bytes to `buf`.
pub fn append_zeros(buf: &mut Vec<u8>, n: usize)
    ensures
        final(buf)@ == old(buf)@ + zero_bytes(n as int),
{
    let mut p: usize = 0;
    while p < n
        invariant
            0 <= p <= n,
            buf@ =~= old(buf)@ + zero_bytes(p as int),
        decreases n - p,
    {
        buf.push(0u8);
        proof {
            assert(buf@ =~= old(buf)@ + zero_bytes(p + 1));
        }
        p = p + 1;
    }
}

/// Append the offset section: each offset as two little-endian bytes.
pub fn append_offsets(buf: &mut Vec<u8>, offs: &Vec<u16>)
    ensures
        final(buf)@ == old(buf)@ + offsets_bytes(offs@),
{
    let mut j: usize = 0;
    while j < offs.len()
        invariant
            0 <= j <= offs@.len(),
            buf@ =~= old(buf)@ + offsets_bytes(offs@.subrange(0, j as int)),
        decreases offs@.len() - j,
    {
        push_u16(buf, offs[j]);
        proof {
            lemma_offsets_bytes_push(offs@.subrange(0, j as int), offs@[j as int]);
            assert(offs@.subrange(0, j as int).push(offs@[j as int]) =~= offs@.subrange(0, j + 1));
        }
        j = j + 1;
    }
    proof {
        assert(offs@.subrange(0, offs@.len() as int) =~= offs@);
    }
}

/// The offsets stored in the offset section that starts at byte `lim`.
pub open spec fn section_offsets(bytes: Seq<u8>, lim: int, count: int) -> Seq<u16> {
    Seq::new(count as nat, |i: int| u16_val(bytes[lim + 2 * i], bytes[lim + 2 * i + 1]) as u16)
}

/// Walk the entry headers from position `pos`, matching them against the
/// offset table from index `i` on: each offset must equal the walk position,
/// each entry must lie below `lim`.  Returns where the data section ends.
pub open spec fn chain_from(bytes: Seq<u8>, lim: int, offsets: Seq<u16>, i: int, pos: int) -> Option<
    int,
>
    decreases offsets.len() - i,
    when 0 <= i
{
    if i >= offsets.len() {
        Some(pos)
    } else if offsets[i] as int != pos {
        None
    } else if !(pos + 2 <= lim && pos + 4 + entry_klen(bytes, pos) <= lim && entry_end(bytes, pos)
        <= lim) {
        None
    } else {
        chain_from(bytes, lim, offsets, i + 1, entry_end(bytes, pos))
    }
}

/// The mathematical parse of an encoded block: the data section and offset
/// table recovered from the buffer, or nothing when the buffer is not a
/// valid encoding.  The count is read from the tail; the offset table by
/// length; the data section by walking entry headers; the checksum, order
/// and size rules must all hold.
pub open spec fn spec_decode(bytes: Seq<u8>) -> Option<(Seq<u8>, Seq<u16>)> {
    if bytes.len() < 6 {
        None
    } else {
        let count = u16_val(bytes[bytes.len() - 6], bytes[bytes.len() - 5]);
        if bytes.len() - 6 < 2 * count {
            None
        } else {
            let lim = bytes.len() - 6 - 2 * count;
            let offsets = section_offsets(bytes, lim, count);
            if chain_from(bytes, lim, offsets, 0, 0) is None {
                None
            } else {
                let dend = chain_from(bytes, lim, offsets, 0, 0)->Some_0;
                if lim - dend > 0xFFFF {
                    None
                } else {
                    let data = bytes.subrange(0, dend);
                    if !entries_sorted(block_entries(data, offsets)) {
                        None
                    } else if u32_val(
                        bytes[bytes.len() - 4],
                        bytes[bytes.len() - 3],
                        bytes[bytes.len() - 2],
                        bytes[bytes.len() - 1],
                    ) != crc32_of(crc_input(data, offsets)) {
                        None
                    } else {
                        Some((data, offsets))
                    }
                }
            }
        }
    }
}

/// The length of an encoded block in terms of its parts.
pub proof fn lemma_block_encoding_len(data: Seq<u8>, offsets: Seq<u16>, padding: int)
    requires
        padding >= 0,
    ensures
        block_encoding(data, offsets, padding).len() == data.len() + padding + 2 * offsets.len()
            + 6,
{
    lemma_offsets_bytes_len(offsets);
}

/// The length of the offset section is twice the number of offsets.
pub proof fn lemma_offsets_bytes_len(offs: Seq<u16>)
    ensures
        offsets_bytes(offs).len() == 2 * offs.len(),
    decreases offs.len(),
{
    if offs.len() > 0 {
        lemma_offsets_bytes_len(offs.drop_first());
    }
}

/// Appending one offset appends its two bytes.
pub proof fn lemma_offsets_bytes_push(offs: Seq<u16>, x: u16)
    ensures
        offsets_bytes(offs.push(x)) == offsets_bytes(offs) + le16(x),
    decreases offs.len(),
{
    if offs.len() == 0 {
        assert(offs.push(x)[0] == x);
        assert(offs.push(x).drop_first() =~= offs);
        assert(offsets_bytes(offs.push(x)) == le16(x) + offsets_bytes(offs));
        assert(le16(x) + offsets_bytes(offs) =~= le16(x));
        assert(offsets_bytes(offs) + le16(x) =~= le16(x));
    } else {
        assert(offs.push(x)[0] == offs[0]);
        assert(offs.push(x).drop_first() =~= offs.drop_first().push(x));
        lemma_offsets_bytes_push(offs.drop_first(), x);
        assert(offsets_bytes(offs.push(x)) =~= le16(offs[0]) + (offsets_bytes(offs.drop_first())
            + le16(x)));
        assert(le16(offs[0]) + (offsets_bytes(offs.drop_first()) + le16(x)) =~= offsets_bytes(offs)
            + le16(x));
    }
}

/// Read the 16-bit little-endian integer at byte position `i`.
pub fn u16_at(bytes: &Vec<u8>, i: usize) -> (r: u16)
    requires
        i + 2 <= bytes@.len(),
    ensures
        r as int == u16_val(bytes@[i as int], bytes@[i + 1]),
{
    let n = bytes.len();
    bytes[i] as u16 + 256 * (bytes[i + 1] as u16)
}

/// Read the 32-bit little-endian integer at byte position `i`.
pub fn u32_at(bytes: &Vec<u8>, i: usize) -> (r: u32)
    requires
        i + 4 <= bytes@.len(),
    ensures
        r as int == u32_val(bytes@[i as int], bytes@[i + 1], bytes@[i + 2], bytes@[i + 3]),
{
    let n = bytes.len();
    bytes[i] as u32 + 256 * (bytes[i + 1] as u32) + 65536 * (bytes[i + 2] as u32) + 16777216 * (
    bytes[i + 3] as u32)
}

/// Append a 16-bit integer in little-endian order.
pub fn push_u16(buf: &mut Vec<u8>, x: u16)
    ensures
        final(buf)@ == old(buf)@ + le16(x),
{
    buf.push((x % 256) as u8);
    buf.push((x / 256) as u8);
    proof {
        assert(buf@ =~= old(buf)@ + le16(x));
    }
}

/// Append a 32-bit integer in little-endian order.
pub fn push_u32(buf: &mut Vec<u8>, x: u32)
    ensures
        final(buf)@ == old(buf)@ + le32(x),
{
    buf.push((x % 256) as u8);
    buf.push(((x / 256) % 256) as u8);
    buf.push(((x / 65536) % 256) as u8);
    buf.push(((x / 16777216) % 256) as u8);
    proof {
        assert(buf@ =~= old(buf)@ + le32(x));
    }
}

/// Copy the byte range `[a, b)` out of a buffer.
pub fn copy_range(bytes: &Vec<u8>, a: usize, b: usize) -> (r: Vec<u8>)
    requires
        a <= b <= bytes@.len(),
    ensures
        r@ == bytes@.subrange(a as int, b as int),
{
    let mut out: Vec<u8> = Vec::new();
    let mut i: usize = a;
    while i < b
        invariant
            a <= i <= b <= bytes@.len(),
            out@ =~= bytes@.subrange(a as int, i as int),
        decreases b - i,
    {
        out.push(bytes[i]);
        proof {
            assert(out@ =~= bytes@.subrange(a as int, i + 1));
        }
        i = i + 1;
    }
    out
}


/// A 16-bit value is recovered from its two little-endian bytes.
pub proof fn lemma_le16_val(x: u16)
    ensures
        u16_val((x % 256) as u8, (x / 256) as u8) == x,
{
    lemma_fundamental_div_mod(x as int, 256);
}

/// The two little-endian bytes of a stored 16-bit value are the stored
/// bytes themselves.
pub proof fn lemma_u16_val_parts(lo: u8, hi: u8)
    ensures
        0 <= u16_val(lo, hi) <= 0xFFFF,
        u16_val(lo, hi) % 256 == lo,
        u16_val(lo, hi) / 256 == hi,
        le16(u16_val(lo, hi) as u16) == seq![lo, hi],
{
    assert(u16_val(lo, hi) % 256 == lo && u16_val(lo, hi) / 256 == hi) by (nonlinear_arith);
    let x = u16_val(lo, hi) as u16;
    assert(x % 256 == lo && x / 256 == hi);
    assert(le16(x) =~= seq![lo, hi]);
}

/// A 32-bit value is recovered from its four little-endian bytes.
pub proof fn lemma_le32_val(x: u32)
    ensures
        u32_val(
            (x % 256) as u8,
            ((x / 256) % 256) as u8,
            ((x / 65536) % 256) as u8,
            ((x / 16777216) % 256) as u8,
        ) == x,
{
    let a = x as int;
    lemma_fundamental_div_mod(a, 256);
    lemma_fundamental_div_mod(a / 256, 256);
    lemma_div_denominator(a, 256, 256);
    lemma_fundamental_div_mod(a / 65536, 256);
    lemma_div_denominator(a, 65536, 256);
    assert(256 * 256 == 65536);
    assert(65536 * 256 == 16777216);
}

/// Index access into the offset section.
pub proof fn lemma_offsets_bytes_index(offs: Seq<u16>, i: int)
    requires
        0 <= i < offs.len(),
    ensures
        offsets_bytes(offs)[2 * i] == (offs[i] % 256) as u8,
        offsets_bytes(offs)[2 * i + 1] == (offs[i] / 256) as u8,
    decreases offs.len(),
{
    lemma_offsets_bytes_len(offs);
    lemma_offsets_bytes_len(offs.drop_first());
    if i == 0 {
    } else {
        lemma_offsets_bytes_index(offs.drop_first(), i - 1);
        assert(offs.drop_first()[i - 1] == offs[i]);
    }
}

/// An offset section parses back to the offsets it encodes.
pub proof fn lemma_offsets_bytes_parse(sec: Seq<u8>, offs: Seq<u16>)
    requires
        sec.len() == 2 * offs.len(),
        forall|i: int|
            0 <= i < offs.len() ==> (#[trigger] offs[i]) as int == u16_val(sec[2 * i], sec[2 * i + 1]),
    ensures
        offsets_bytes(offs) == sec,
{
    lemma_offsets_bytes_len(offs);
    assert forall|j: int| 0 <= j < sec.len() implies offsets_bytes(offs)[j] == sec[j] by {
        let i = j / 2;
        lemma_fundamental_div_mod(j, 2);
        assert(0 <= i < offs.len());
        lemma_offsets_bytes_index(offs, i);
        lemma_u16_val_parts(sec[2 * i], sec[2 * i + 1]);
        if j % 2 == 0 {
            assert(j == 2 * i);
        } else {
            assert(j == 2 * i + 1);
        }
    }
    assert(offsets_bytes(offs) =~= sec);
}

/// Reads of an entry that lies below `dend` agree between the full buffer
/// and its prefix of length `dend`.
pub proof fn lemma_entry_prefix(bytes: Seq<u8>, dend: int, off: int)
    requires
        0 <= dend <= bytes.len(),
        0 <= off,
        off + 2 <= dend,
        off + 4 + entry_klen(bytes, off) <= dend,
        entry_end(bytes, off) <= dend,
    ensures
        entry_klen(bytes.subrange(0, dend), off) == entry_klen(bytes, off),
        entry_vlen(bytes.subrange(0, dend), off) == entry_vlen(bytes, off),
        entry_end(bytes.subrange(0, dend), off) == entry_end(bytes, off),
        entry_key(bytes.subrange(0, dend), off) == entry_key(bytes, off),
        entry_val(bytes.subrange(0, dend), off) == entry_val(bytes, off),
        entry_fits(bytes.subrange(0, dend), off, dend),
{
    let data = bytes.subrange(0, dend);
    assert(data[off] == bytes[off]);
    assert(data[off + 1] == bytes[off + 1]);
    let k = entry_klen(bytes, off);
    assert(data[off + 2 + k] == bytes[off + 2 + k]);
    assert(data[off + 3 + k] == bytes[off + 3 + k]);
    assert(entry_key(data, off) =~= entry_key(bytes, off));
    assert(entry_val(data, off) =~= entry_val(bytes, off));
}


/// A successful walk, cut at its data end, yields a tiled data section, and
/// entry reads agree between the buffer and that prefix.
pub proof fn lemma_chain_prefix(bytes: Seq<u8>, lim: int, offsets: Seq<u16>, dend: int)
    requires
        0 <= lim <= bytes.len(),
        chain_from(bytes, lim, offsets, 0, 0) == Some(dend),
    ensures
        0 <= dend <= lim,
        dend <= 0x3FFFF,
        forall|i: int|
            0 <= i < offsets.len() ==> entry_fits(
                bytes.subrange(0, dend),
                #[trigger] offsets[i] as int,
                dend,
            ),
        offsets_tile(bytes.subrange(0, dend), offsets),
        block_entries(bytes.subrange(0, dend), offsets) == block_entries(bytes, offsets),
{
    reveal(offsets_tile);
    reveal(block_entries);
    lemma_chain_facts(bytes, lim, offsets, 0, 0);
    if offsets.len() > 0 {
        let last = offsets[offsets.len() - 1] as int;
        assert(entry_klen(bytes, last) <= 0xFFFF);
        assert(entry_vlen(bytes, last) <= 0xFFFF);
        assert(dend == entry_end(bytes, last));
    }
    let data = bytes.subrange(0, dend);
    assert forall|i: int|
        0 <= i < offsets.len() implies entry_fits(data, #[trigger] offsets[i] as int, dend)
            && entry_end(data, offsets[i] as int) == entry_end(bytes, offsets[i] as int)
            && entry_key(data, offsets[i] as int) == entry_key(bytes, offsets[i] as int)
            && entry_val(data, offsets[i] as int) == entry_val(bytes, offsets[i] as int) by {
        lemma_entry_prefix(bytes, dend, offsets[i] as int);
    }
    assert(block_entries(data, offsets) =~= block_entries(bytes, offsets));
}

/// The offset section and the count bytes of a buffer re-encode the parsed
/// offset table and count.
pub proof fn lemma_crc_sections(bytes: Seq<u8>, lim: int, count: int)
    requires
        bytes.len() >= 6,
        count == u16_val(bytes[bytes.len() - 6], bytes[bytes.len() - 5]),
        lim == bytes.len() - 6 - 2 * count,
        lim >= 0,
    ensures
        bytes.subrange(lim, lim + 2 * count) == offsets_bytes(section_offsets(bytes, lim, count)),
        bytes.subrange(bytes.len() - 6, bytes.len() - 4) == le16(count as u16),
{
    let osec = bytes.subrange(lim, lim + 2 * count);
    let offs = section_offsets(bytes, lim, count);
    assert forall|i: int|
        0 <= i < offs.len() implies (#[trigger] offs[i]) as int == u16_val(
        osec[2 * i],
        osec[2 * i + 1],
    ) by {
        assert(osec[2 * i] == bytes[lim + 2 * i]);
        assert(osec[2 * i + 1] == bytes[lim + 2 * i + 1]);
    }
    lemma_offsets_bytes_parse(osec, offs);
    lemma_u16_val_parts(bytes[bytes.len() - 6], bytes[bytes.len() - 5]);
    assert(bytes.subrange(bytes.len() - 6, bytes.len() - 4) =~= le16(count as u16));
}


/// A buffer whose parse conditions all hold decodes to its parsed parts.
proof fn lemma_decode_some(bytes: Seq<u8>, count: int, lim: int, dend: int)
    requires
        bytes.len() >= 6,
        count == u16_val(bytes[bytes.len() - 6], bytes[bytes.len() - 5]),
        bytes.len() - 6 >= 2 * count,
        lim == bytes.len() - 6 - 2 * count,
        chain_from(bytes, lim, section_offsets(bytes, lim, count), 0, 0) == Some(dend),
        0 <= dend,
        lim - dend <= 0xFFFF,
        entries_sorted(block_entries(bytes.subrange(0, dend), section_offsets(bytes, lim, count))),
        u32_val(
            bytes[bytes.len() - 4],
            bytes[bytes.len() - 3],
            bytes[bytes.len() - 2],
            bytes[bytes.len() - 1],
        ) == crc32_of(
            crc_input(bytes.subrange(0, dend), section_offsets(bytes, lim, count)),
        ),
    ensures
        spec_decode(bytes) == Some(
            (bytes.subrange(0, dend), section_offsets(bytes, lim, count)),
        ),
{
    reveal(spec_decode);
}

/// Parse the offset table that starts at byte `lim`.
fn parse_offset_table(bytes: &Vec<u8>, lim: usize, count: usize) -> (r: Vec<u16>)
    requires
        lim + 2 * count <= bytes@.len(),
    ensures
        r@ == section_offsets(bytes@, lim as int, count as int),
{
    let n = bytes.len();
    let mut out: Vec<u16> = Vec::new();
    let mut i: usize = 0;
    while i < count
        invariant
            0 <= i <= count,
            lim + 2 * count <= bytes@.len(),
            bytes@.len() == n,
            out@.len() == i,
            forall|j: int|
                0 <= j < i ==> (#[trigger] out@[j]) as int == u16_val(
                    bytes@[lim + 2 * j],
                    bytes@[lim + 2 * j + 1],
                ),
        decreases count - i,
    {
        let v = u16_at(bytes, lim + 2 * i);
        out.push(v);
        i = i + 1;
    }
    proof {
        assert(out@ =~= section_offsets(bytes@, lim as int, count as int));
    }
    out
}

/// Walk the entry headers, checking that the offset table tiles the data
/// section; returns where the data section ends.
fn walk_chain(bytes: &Vec<u8>, offsets: &Vec<u16>, lim: usize) -> (r: Option<usize>)
    requires
        lim + 6 <= bytes@.len(),
    ensures
        match r {
            Some(dend) => chain_from(bytes@, lim as int, offsets@, 0, 0) == Some(dend as int)
                && dend <= lim,
            None => chain_from(bytes@, lim as int, offsets@, 0, 0) is None,
        },
{
    let n = bytes.len();
    let count = offsets.len();
    let mut pos: usize = 0;
    let mut i: usize = 0;
    while i < count
        invariant
            0 <= i <= count,
            lim + 6 <= bytes@.len(),
            bytes@.len() == n,
            count == offsets@.len(),
            0 <= pos <= lim,
            chain_from(bytes@, lim as int, offsets@, 0, 0) == chain_from(
                bytes@,
                lim as int,
                offsets@,
                i as int,
                pos as int,
            ),
        decreases count - i,
    {
        if offsets[i] as usize != pos {
            return None;
        }
        if lim - pos < 2 {
            return None;
        }
        let klen = u16_at(bytes, pos) as usize;
        proof {
            assert(klen as int == entry_klen(bytes@, pos as int));
        }
        if lim - pos - 2 < klen + 2 {
            return None;
        }
        let vlen = u16_at(bytes, pos + 2 + klen) as usize;
        proof {
            assert(vlen as int == entry_vlen(bytes@, pos as int));
            assert(entry_end(bytes@, pos as int) == pos + 4 + klen + vlen);
        }
        if lim - pos - 4 - klen < vlen {
            return None;
        }
        pos = pos + 4 + klen + vlen;
        i = i + 1;
    }
    Some(pos)
}

/// What a successful walk guarantees about every entry along the chain.
#[verifier::rlimit(100)]
#[verifier::spinoff_prover]
pub proof fn lemma_chain_facts(bytes: Seq<u8>, lim: int, offsets: Seq<u16>, i: int, pos: int)
    requires
        0 <= i <= offsets.len(),
        0 <= pos,
        chain_from(bytes, lim, offsets, i, pos) is Some,
    ensures
        ({
            let dend = chain_from(bytes, lim, offsets, i, pos)->Some_0;
            &&& pos <= dend <= lim || (i == offsets.len() && pos == dend)
            &&& dend == if i == offsets.len() {
                pos
            } else {
                entry_end(bytes, offsets[offsets.len() - 1] as int)
            }
            &&& forall|j: int|
                i <= j < offsets.len() ==> entry_fits(bytes, #[trigger] offsets[j] as int, lim)
            &&& forall|j: int|
                i <= j < offsets.len() ==> (#[trigger] offsets[j]) as int == if j == i {
                    pos
                } else {
                    entry_end(bytes, offsets[j - 1] as int)
                }
            &&& forall|j: int|
                i <= j < offsets.len() ==> entry_end(bytes, #[trigger] offsets[j] as int) <= dend
        }),
    decreases offsets.len() - i,
{
    if i < offsets.len() {
        lemma_chain_facts(bytes, lim, offsets, i + 1, entry_end(bytes, pos));
    }
}

/// A tiled data section embedded at the start of a longer buffer walks
/// successfully.
pub proof fn lemma_tiling_chain(bytes: Seq<u8>, lim: int, offsets: Seq<u16>, i: int, dend: int)
    requires
        0 <= dend <= lim,
        0 <= i <= offsets.len(),
        dend == if offsets.len() == 0 {
            0int
        } else {
            entry_end(bytes, offsets[offsets.len() - 1] as int)
        },
        forall|j: int| 0 <= j < offsets.len() ==> entry_fits(bytes, #[trigger] offsets[j] as int, dend),
        forall|j: int|
            0 <= j < offsets.len() ==> (#[trigger] offsets[j]) as int == if j == 0 {
                0int
            } else {
                entry_end(bytes, offsets[j - 1] as int)
            },
    ensures
        chain_from(
            bytes,
            lim,
            offsets,
            i,
            if i == 0 {
                0int
            } else {
                entry_end(bytes, offsets[i - 1] as int)
            },
        ) == Some(dend),
    decreases offsets.len() - i,
{
    if i == offsets.len() {
        if offsets.len() > 0 {
        }
    } else {
        lemma_tiling_chain(bytes, lim, offsets, i + 1, dend);
    }
}

/// Check that the entries of a data section carry non-empty keys in
/// strictly ascending order.
fn check_entries(data: &Vec<u8>, offsets: &Vec<u16>) -> (r: bool)
    requires
        forall|i: int|
            0 <= i < offsets@.len() ==> entry_fits(
                data@,
                #[trigger] offsets@[i] as int,
                data@.len() as int,
            ),
    ensures
        r <==> entries_sorted(block_entries(data@, offsets@)),
{
    proof {
        reveal(block_entries);
        reveal(entries_sorted);
    }
    let es = Ghost(block_entries(data@, offsets@));
    let count = offsets.len();
    let mut prev: Vec<u8> = Vec::new();
    let mut i: usize = 0;
    while i < count
        invariant
            0 <= i <= count,
            count == offsets@.len(),
            es@ == block_entries(data@, offsets@),
            forall|i0: int|
                0 <= i0 < offsets@.len() ==> entry_fits(
                    data@,
                    #[trigger] offsets@[i0] as int,
                    data@.len() as int,
                ),
            i > 0 ==> prev@ == es@[i - 1].0,
            forall|j: int, k: int| 0 <= j < k < i ==> lex_lt(#[trigger] es@[j].0, #[trigger] es@[k].0),
            forall|j: int| 0 <= j < i ==> (#[trigger] es@[j]).0.len() > 0,
        decreases count - i,
    {
        let off = offsets[i] as usize;
        proof {
            reveal(block_entries);
            reveal(entries_sorted);
            assert(entry_fits(data@, offsets@[i as int] as int, data@.len() as int));
        }
        let klen = u16_at(data, off) as usize;
        if klen == 0 {
            proof {
                assert(es@[i as int].0.len() == 0);
            }
            return false;
        }
        let key = copy_range(data, off + 2, off + 2 + klen);
        proof {
            assert(key@ == es@[i as int].0);
        }
        if i > 0 {
            match key_cmp(&prev, &key) {
                KeyOrd::Less => {},
                _ => {
                    proof {
                        assert(!lex_lt(es@[i - 1].0, es@[i as int].0));
                    }
                    return false;
                },
            }
        }
        proof {
            if i > 0 {
                assert forall|j: int| 0 <= j < i implies lex_lt(es@[j].0, es@[i as int].0) by {
                    if j < i - 1 {
                        lemma_lex_trans(es@[j].0, es@[i - 1].0, es@[i as int].0);
                    }
                }
            }
        }
        prev = key;
        i = i + 1;
    }
    proof {
        reveal(entries_sorted);
    }
    true
}


/// In an encoded block, the count, the offset table and the checksum parse
/// back to what was encoded, and the data section is the buffer's prefix.
proof fn lemma_encoding_parses(data: Seq<u8>, offsets: Seq<u16>, padding: int)
    requires
        block_wf(data, offsets),
        0 <= padding <= 0xFFFF,
    ensures
        ({
            let bytes = block_encoding(data, offsets, padding);
            let n = bytes.len() as int;
            &&& n == data.len() + padding + 2 * offsets.len() + 6
            &&& u16_val(bytes[n - 6], bytes[n - 5]) == offsets.len() as int
            &&& section_offsets(bytes, data.len() + padding, offsets.len() as int) == offsets
            &&& bytes.subrange(0, data.len() as int) == data
            &&& u32_val(bytes[n - 4], bytes[n - 3], bytes[n - 2], bytes[n - 1]) == crc32_of(
                crc_input(data, offsets),
            )
        }),
{
    lemma_block_encoding_len(data, offsets, padding);
    lemma_offsets_bytes_len(offsets);
    let bytes = block_encoding(data, offsets, padding);
    let cnt = offsets.len() as u16;
    let crcv = crc32_of(crc_input(data, offsets));
    let head3 = data + zero_bytes(padding) + offsets_bytes(offsets);
    let n = bytes.len() as int;
    let count = offsets.len() as int;
    let lim = data.len() + padding;
    assert(bytes == head3 + le16(cnt) + le32(crcv));
    assert(head3.len() == n - 6);
    assert(bytes[n - 6] == le16(cnt)[0] && bytes[n - 5] == le16(cnt)[1]);
    lemma_le16_val(cnt);
    let soffs = section_offsets(bytes, lim, count);
    assert forall|i: int| 0 <= i < count implies soffs[i] == offsets[i] by {
        lemma_offsets_bytes_index(offsets, i);
        assert(bytes[lim + 2 * i] == offsets_bytes(offsets)[2 * i]);
        assert(bytes[lim + 2 * i + 1] == offsets_bytes(offsets)[2 * i + 1]);
        lemma_le16_val(offsets[i]);
    }
    assert(soffs =~= offsets);
    assert(bytes.subrange(0, data.len() as int) =~= data);
    assert(bytes[n - 4] == le32(crcv)[0] && bytes[n - 3] == le32(crcv)[1] && bytes[n - 2] == le32(
        crcv,
    )[2] && bytes[n - 1] == le32(crcv)[3]);
    lemma_le32_val(crcv);
}

/// In an encoded block, walking the entry headers succeeds and ends exactly
/// at the data section's end.
#[verifier::rlimit(100)]
#[verifier::spinoff_prover]
proof fn lemma_encoding_chain(data: Seq<u8>, offsets: Seq<u16>, padding: int)
    requires
        block_wf(data, offsets),
        0 <= padding <= 0xFFFF,
    ensures
        chain_from(
            block_encoding(data, offsets, padding),
            data.len() + padding,
            offsets,
            0,
            0,
        ) == Some(data.len() as int),
{
    lemma_block_encoding_len(data, offsets, padding);
    lemma_offsets_bytes_len(offsets);
    let bytes = block_encoding(data, offsets, padding);
    let dend = data.len() as int;
    let lim = data.len() + padding;
    assert(bytes.subrange(0, dend) =~= data);
    reveal(offsets_tile);
    assert forall|j: int|
        0 <= j < offsets.len() implies entry_fits(bytes, #[trigger] offsets[j] as int, dend)
            && entry_end(bytes, offsets[j] as int) == entry_end(data, offsets[j] as int) by {
        assert(entry_fits(data, offsets[j] as int, dend));
        let off = offsets[j] as int;
        assert(bytes[off] == data[off] && bytes[off + 1] == data[off + 1]);
        assert(entry_klen(bytes, off) == entry_klen(data, off));
        let k = entry_klen(data, off);
        assert(bytes[off + 2 + k] == data[off + 2 + k] && bytes[off + 3 + k] == data[off + 3 + k]);
    }
    lemma_tiling_chain(bytes, lim, offsets, 0, dend);
}

/// Block round-trip law: any well-formed block, encoded with any amount of
/// padding, decodes back to exactly its data section and offset table.
pub proof fn lemma_block_round_trip(data: Seq<u8>, offsets: Seq<u16>, padding: int)
    requires
        block_wf(data, offsets),
        0 <= padding <= 0xFFFF,
    ensures
        spec_decode(block_encoding(data, offsets, padding)) == Some((data, offsets)),
{
    lemma_block_encoding_len(data, offsets, padding);
    lemma_encoding_parses(data, offsets, padding);
    lemma_encoding_chain(data, offsets, padding);
    let bytes = block_encoding(data, offsets, padding);
    let n = bytes.len() as int;
    let count = offsets.len() as int;
    let lim = n - 6 - 2 * count;
    let dend = data.len() as int;
    assert(lim == data.len() + padding);
    assert(section_offsets(bytes, lim, count) == offsets);
    lemma_chain_prefix(bytes, lim, offsets, dend);
    assert(block_entries(bytes.subrange(0, dend), offsets) == block_entries(data, offsets));
    assert(crc_input(bytes.subrange(0, dend), section_offsets(bytes, lim, count)) == crc_input(
        data,
        offsets,
    ));
    lemma_decode_some(bytes, count, lim, dend);
}


/// The number of parsed entries equals the number of offsets.
pub proof fn lemma_block_entries_len(data: Seq<u8>, offsets: Seq<u16>)
    ensures
        block_entries(data, offsets).len() == offsets.len(),
{
    reveal(block_entries);
}

/// A well-formed block's entries are pairwise sorted and carry non-empty
/// keys.
pub proof fn lemma_entries_sorted_pairs(data: Seq<u8>, offsets: Seq<u16>)
    requires
        block_wf(data, offsets),
    ensures
        forall|i: int, j: int|
            0 <= i < j < block_entries(data, offsets).len() ==> lex_lt(
                #[trigger] block_entries(data, offsets)[i].0,
                #[trigger] block_entries(data, offsets)[j].0,
            ),
        forall|i: int|
            0 <= i < block_entries(data, offsets).len() ==> (#[trigger] block_entries(
                data,
                offsets,
            )[i]).0.len() > 0,
{
    reveal(entries_sorted);
}


/// Entry `i` of a well-formed block lies within the data section, and the
/// parsed entry sequence reads it at its offset.
pub proof fn lemma_block_entry_at(data: Seq<u8>, offsets: Seq<u16>, i: int)
    requires
        block_wf(data, offsets),
        0 <= i < offsets.len(),
    ensures
        entry_fits(data, offsets[i] as int, data.len() as int),
        block_entries(data, offsets).len() == offsets.len(),
        block_entries(data, offsets)[i] == (
            entry_key(data, offsets[i] as int),
            entry_val(data, offsets[i] as int),
        ),
{
    reveal(offsets_tile);
    reveal(block_entries);
}


/// A well-formed block with no offsets has no data.
pub proof fn lemma_block_empty(data: Seq<u8>, offsets: Seq<u16>)
    requires
        block_wf(data, offsets),
        offsets.len() == 0,
    ensures
        data.len() == 0,
{
    reveal(offsets_tile);
}

/// Pushing an entry whose key lies above the last one keeps a sorted entry
/// sequence sorted.
pub proof fn lemma_sorted_push(es: Seq<(Seq<u8>, Seq<u8>)>, key: Seq<u8>, value: Seq<u8>)
    requires
        entries_sorted(es),
        key.len() > 0,
        es.len() > 0 ==> lex_lt(es.last().0, key),
    ensures
        entries_sorted(es.push((key, value))),
{
    reveal(entries_sorted);
    let ns = es.push((key, value));
    assert forall|i: int, j: int|
        0 <= i < j < ns.len() implies lex_lt(#[trigger] ns[i].0, #[trigger] ns[j].0) by {
        if j < ns.len() - 1 {
            assert(lex_lt(es[i].0, es[j].0));
        } else {
            assert(es.last() == es[i] || lex_lt(es[i].0, es.last().0));
            if i < ns.len() - 2 {
                crate::keys::lemma_lex_trans(es[i].0, es.last().0, key);
            }
        }
    }
}


/// A buffer that decodes yields a well-formed block.
pub proof fn lemma_spec_decode_wf(bytes: Seq<u8>)
    requires
        spec_decode(bytes) is Some,
    ensures
        ({
            let (d, o) = spec_decode(bytes)->Some_0;
            &&& block_wf(d, o)
            &&& d == bytes.subrange(0, d.len() as int)
        }),
{
    reveal(spec_decode);
    let count = u16_val(bytes[bytes.len() - 6], bytes[bytes.len() - 5]);
    let lim = bytes.len() - 6 - 2 * count;
    let offsets = section_offsets(bytes, lim, count);
    let dend = chain_from(bytes, lim, offsets, 0, 0)->Some_0;
    lemma_chain_facts(bytes, lim, offsets, 0, 0);
    lemma_chain_prefix(bytes, lim, offsets, dend);
}


/// A well-formed block with entries holds at least one entry's bytes.
pub proof fn lemma_block_nonempty(data: Seq<u8>, offsets: Seq<u16>)
    requires
        block_wf(data, offsets),
        offsets.len() > 0,
    ensures
        data.len() >= 5,
{
    reveal(offsets_tile);
    reveal(block_entries);
    reveal(entries_sorted);
    let last = offsets.len() - 1;
    assert(entry_fits(data, offsets[last] as int, data.len() as int));
    assert(block_entries(data, offsets)[last].0.len() > 0);
    assert(entry_key(data, offsets[last] as int).len() == entry_klen(data, offsets[last] as int));
}


/// Entry keys and values fit the 16-bit on-wire length.
pub proof fn lemma_block_entry_key_bounds(data: Seq<u8>, offsets: Seq<u16>, i: int)
    requires
        block_wf(data, offsets),
        0 <= i < offsets.len(),
    ensures
        block_entries(data, offsets)[i].0.len() <= 0xFFFF,
        block_entries(data, offsets)[i].1.len() <= 0xFFFF,
{
    reveal(offsets_tile);
    reveal(block_entries);
    assert(entry_fits(data, offsets[i] as int, data.len() as int));
}

} // verus!
