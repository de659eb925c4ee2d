//! The engine coordinator: the active memtable, the immutable memtables
//! waiting to be flushed, the L0 tables and the deeper levels, probed in
//! freshness order.
//!
//! Reads consult the layers newest first; a write lands in the active
//! memtable; `sync` drains the oldest immutable memtable into a new L0
//! table; compaction folds a whole level into the next one.

use vstd::prelude::*;

use crate::block::Error;
use crate::keys::KeyBound;
use crate::mem_table::{entries_match_map, MemTable};
use crate::table::{cache_coherent, cache_wf, BlockCache, SsTable};

verus! {

/// How many tables a level may gather before it is folded into the next.
pub const MIN_NUM_SST_FILES_TO_COMPACT: usize = 2;

/// The byte size past which the active memtable should be rotated.
pub const MEMTABLE_FLUSH_THRESHOLD: usize = 1000000;

/// The block size used for new tables.
pub const BLOCK_SIZE: usize = 4096;

/// Accepted block sizes: a power of two between one page and the largest
/// size the 16-bit in-block offsets can address.
pub fn validate_block_size(size: usize) -> (r: bool)
    ensures
        r <==> (size == 4096 || size == 8192 || size == 16384 || size == 32768 || size == 65536),
{
    size == 4096 || size == 8192 || size == 16384 || size == 32768 || size == 65536
}

/// Look a key up in a stack of layer maps, newest first.
pub open spec fn layers_lookup(layers: Seq<Map<Seq<u8>, Seq<u8>>>, k: Seq<u8>) -> Option<Seq<u8>>
    decreases layers.len(),
{
    if layers.len() == 0 {
        None
    } else if layers[0].dom().contains(k) {
        Some(layers[0][k])
    } else {
        layers_lookup(layers.drop_first(), k)
    }
}

/// Looking up in stacked layer groups probes the first group, then the
/// second.
pub proof fn lemma_layers_lookup_concat(a: Seq<Map<Seq<u8>, Seq<u8>>>, b: Seq<Map<Seq<u8>, Seq<u8>>>, k: Seq<u8>)
    ensures
        layers_lookup(a + b, k) == if layers_lookup(a, k) is Some {
            layers_lookup(a, k)
        } else {
            layers_lookup(b, k)
        },
    decreases a.len(),
{
    if a.len() == 0 {
        assert(a + b =~= b);
    } else {
        assert((a + b)[0] == a[0]);
        assert((a + b).drop_first() =~= a.drop_first() + b);
        lemma_layers_lookup_concat(a.drop_first(), b, k);
    }
}

/// A lookup that misses every layer yields nothing; one that first hits
/// layer `j` yields that layer's value.
pub proof fn lemma_layers_lookup_at(layers: Seq<Map<Seq<u8>, Seq<u8>>>, k: Seq<u8>, j: int)
    requires
        0 <= j <= layers.len(),
        forall|m: int| 0 <= m < j ==> !(#[trigger] layers[m]).dom().contains(k),
        j < layers.len() ==> layers[j].dom().contains(k),
    ensures
        j < layers.len() ==> layers_lookup(layers, k) == Some(layers[j][k]),
        j == layers.len() ==> layers_lookup(layers, k) == layers_lookup(layers.skip(j), k),
    decreases j,
{
    if j > 0 {
        assert(!layers[0].dom().contains(k));
        lemma_layers_lookup_at(layers.drop_first(), k, j - 1);
        if j < layers.len() {
            assert(layers.drop_first()[j - 1] == layers[j]);
        } else {
            assert(layers.drop_first().skip(j - 1) =~= layers.skip(j));
        }
    } else {
        if j == layers.len() {
            assert(layers.skip(0) =~= layers);
        }
    }
}

/// The maps of a run of tables, newest (last in the vector) first.
pub open spec fn sst_list_maps(v: Seq<SsTable>) -> Seq<Map<Seq<u8>, Seq<u8>>> {
    v.map_values(|t: SsTable| t@).reverse()
}

/// The maps of the levels, shallowest first; within a level, newest first.
pub open spec fn levels_layers(ls: Seq<Vec<SsTable>>) -> Seq<Map<Seq<u8>, Seq<u8>>>
    decreases ls.len(),
{
    if ls.len() == 0 {
        Seq::empty()
    } else {
        sst_list_maps(ls[0]@) + levels_layers(ls.drop_first())
    }
}

/// The tables of the levels, in vector order.
pub open spec fn levels_tables(ls: Seq<Vec<SsTable>>) -> Seq<SsTable>
    decreases ls.len(),
{
    if ls.len() == 0 {
        Seq::empty()
    } else {
        ls[0]@ + levels_tables(ls.drop_first())
    }
}


/// Whether a memtable's contents fit the table builder's file-size budget:
/// the cost evolution of feeding its sorted entries stays within bounds.
pub open spec fn flush_fits(m: Map<Seq<u8>, Seq<u8>>, block_size: int) -> bool {
    forall|es: Seq<(Seq<u8>, Seq<u8>)>|
        entries_match_map(es, m, KeyBound::Unbounded, KeyBound::Unbounded)
            ==> #[trigger] crate::table_builder::feed(block_size, 0, 6, 0, es, 0) is Some
}

/// The engine state: the active memtable, the immutable memtables from
/// earliest to latest, the L0 tables from earliest to latest, the deeper
/// levels, and the next table id.
pub struct LsmStorageInner {
    pub memtable: MemTable,
    pub imm_memtables: Vec<MemTable>,
    pub l0_sstables: Vec<SsTable>,
    pub levels: Vec<Vec<SsTable>>,
    pub next_sst_id: usize,
}

impl LsmStorageInner {
    /// Every table of the state, in vector order: L0 first, then the
    /// levels.
    pub open spec fn tables(&self) -> Seq<SsTable> {
        self.l0_sstables@ + levels_tables(self.levels@)
    }

    /// The layer maps in probe order: active memtable, immutable memtables
    /// newest first, L0 newest first, then each level.
    pub open spec fn all_layers(&self) -> Seq<Map<Seq<u8>, Seq<u8>>> {
        seq![self.memtable@] + self.imm_memtables@.map_values(|m: MemTable| m@).reverse()
            + sst_list_maps(self.l0_sstables@) + levels_layers(self.levels@)
    }

    /// The stored value for a key: the newest layer's entry, which may be a
    /// tombstone.
    pub open spec fn lookup(&self, k: Seq<u8>) -> Option<Seq<u8>> {
        layers_lookup(self.all_layers(), k)
    }

    /// The user-visible value for a key: tombstones read as absent.
    pub open spec fn visible(&self, k: Seq<u8>) -> Option<Seq<u8>> {
        match self.lookup(k) {
            Some(v) => if v.len() > 0 {
                Some(v)
            } else {
                None
            },
            None => None,
        }
    }

    /// State invariant: all memtables and tables are well-formed, the
    /// immutable memtables are non-empty, and table ids are distinct and
    /// below the next id.
    pub open spec fn wf(&self) -> bool {
        &&& self.memtable.wf()
        &&& forall|i: int|
            0 <= i < self.imm_memtables@.len() ==> (#[trigger] self.imm_memtables@[i]).wf()
                && self.imm_memtables@[i]@.dom().len() > 0
        &&& forall|i: int| 0 <= i < self.tables().len() ==> (#[trigger] self.tables()[i]).wf()
        &&& forall|i: int|
            0 <= i < self.tables().len() ==> (#[trigger] self.tables()[i]).id < self.next_sst_id
        &&& forall|i: int, j: int|
            0 <= i < j < self.tables().len() ==> (#[trigger] self.tables()[i]).id != (
            #[trigger] self.tables()[j]).id
    }

    /// Create the empty state.
    pub fn create() -> (r: LsmStorageInner)
        ensures
            r.wf(),
            forall|k: Seq<u8>| #[trigger] r.lookup(k) is None,
            r.imm_memtables@.len() == 0,
            r.l0_sstables@.len() == 0,
            r.levels@.len() == 0,
            r.memtable@.dom() =~= Set::<Seq<u8>>::empty(),
            r.memtable.spec_size() == 0,
            r.next_sst_id == 0,
    {
        let r = LsmStorageInner {
            memtable: MemTable::create(),
            imm_memtables: Vec::new(),
            l0_sstables: Vec::new(),
            levels: Vec::new(),
            next_sst_id: 0,
        };
        proof {
            assert(levels_tables(r.levels@) =~= Seq::<SsTable>::empty());
            assert(r.tables() =~= Seq::<SsTable>::empty());
            assert forall|k: Seq<u8>| #[trigger] r.lookup(k) is None by {
                assert(r.imm_memtables@.map_values(|m: MemTable| m@).reverse()
                    =~= Seq::<Map<Seq<u8>, Seq<u8>>>::empty());
                assert(sst_list_maps(r.l0_sstables@) =~= Seq::<Map<Seq<u8>, Seq<u8>>>::empty());
                assert(levels_layers(r.levels@) =~= Seq::<Map<Seq<u8>, Seq<u8>>>::empty());
                assert(r.all_layers() =~= seq![r.memtable@]);
                assert(!r.memtable@.dom().contains(k));
                assert(seq![r.memtable@].drop_first() =~= Seq::<Map<Seq<u8>, Seq<u8>>>::empty());
                assert(layers_lookup(Seq::<Map<Seq<u8>, Seq<u8>>>::empty(), k) is None);
                assert(layers_lookup(seq![r.memtable@], k) is None);
            }
        }
        r
    }

    /// Move the active memtable to the tail of the immutable list and start
    /// a fresh one.  The stored data is unchanged.
    pub fn archive_mem_table(&mut self)
        requires
            old(self).wf(),
            old(self).memtable@.dom().len() > 0,
        ensures
            final(self).wf(),
            final(self).imm_memtables@ == old(self).imm_memtables@.push(old(self).memtable),
            final(self).memtable@.dom() =~= Set::<Seq<u8>>::empty(),
            final(self).memtable.spec_size() == 0,
            final(self).l0_sstables == old(self).l0_sstables,
            final(self).levels == old(self).levels,
            final(self).next_sst_id == old(self).next_sst_id,
            forall|k: Seq<u8>| #[trigger] final(self).lookup(k) == old(self).lookup(k),
    {
        let mut fresh = MemTable::create();
        core::mem::swap(&mut self.memtable, &mut fresh);
        self.imm_memtables.push(fresh);
        proof {
            assert(self.tables() =~= old(self).tables());
            let oimm = old(self).imm_memtables@.map_values(|m: MemTable| m@);
            let nimm = self.imm_memtables@.map_values(|m: MemTable| m@);
            assert(nimm =~= oimm.push(old(self).memtable@));
            assert(nimm.reverse() =~= seq![old(self).memtable@] + oimm.reverse());
            assert forall|k: Seq<u8>| #[trigger] final(self).lookup(k) == old(self).lookup(k) by {
                let rest = oimm.reverse() + sst_list_maps(self.l0_sstables@) + levels_layers(
                    self.levels@,
                );
                assert(self.all_layers() =~= seq![self.memtable@, old(self).memtable@] + rest);
                assert(old(self).all_layers() =~= seq![old(self).memtable@] + rest);
                assert(!self.memtable@.dom().contains(k));
                assert(self.all_layers().drop_first() =~= seq![old(self).memtable@] + rest);
            }
        }
    }
}


/// Probe a run of memtables, newest (last) first.
fn probe_memtables(v: &Vec<MemTable>, key: &Vec<u8>) -> (r: Option<Vec<u8>>)
    ensures
        match r {
            Some(x) => layers_lookup(v@.map_values(|m: MemTable| m@).reverse(), key@) == Some(x@),
            None => layers_lookup(v@.map_values(|m: MemTable| m@).reverse(), key@) is None,
        },
{
    let ghost layers = v@.map_values(|m: MemTable| m@).reverse();
    let n = v.len();
    let mut i: usize = 0;
    #[verifier::loop_isolation(false)]
    while i < n
        invariant
            0 <= i <= n,
            forall|m: int| 0 <= m < i ==> !(#[trigger] layers[m]).dom().contains(key@),
        decreases n - i,
    {
        proof {
            assert(layers[i as int] == v@[n - 1 - i as int]@);
        }
        match v[n - 1 - i].get(key) {
            Some(x) => {
                proof {
                    lemma_layers_lookup_at(layers, key@, i as int);
                }
                return Some(x);
            },
            None => {},
        }
        i = i + 1;
    }
    proof {
        lemma_layers_lookup_at(layers, key@, n as int);
        assert(layers.skip(n as int) =~= Seq::<Map<Seq<u8>, Seq<u8>>>::empty());
    }
    None
}

/// All listed tables are coherent with the cache.
pub open spec fn list_coherent(c: BlockCache, v: Seq<SsTable>) -> bool {
    forall|i: int| 0 <= i < v.len() ==> cache_coherent(c, #[trigger] v[i])
}

/// Probe a run of tables, newest (last) first, through the cache.
fn probe_sst_list(v: &Vec<SsTable>, key: &Vec<u8>, cache: &mut BlockCache) -> (r: Option<Vec<u8>>)
    requires
        forall|i: int| 0 <= i < v@.len() ==> (#[trigger] v@[i]).wf(),
        forall|i: int, j: int|
            0 <= i < j < v@.len() ==> (#[trigger] v@[i]).id != (#[trigger] v@[j]).id,
        cache_wf(*old(cache)),
        list_coherent(*old(cache), v@),
    ensures
        match r {
            Some(x) => layers_lookup(sst_list_maps(v@), key@) == Some(x@),
            None => layers_lookup(sst_list_maps(v@), key@) is None,
        },
        cache_wf(*final(cache)),
        list_coherent(*final(cache), v@),
        forall|t: SsTable|
            #[trigger] cache_coherent(*old(cache), t) && (forall|j: int|
                0 <= j < v@.len() ==> t.id != (#[trigger] v@[j]).id) ==> cache_coherent(
                *final(cache),
                t,
            ),
        forall|j: int|
            0 <= j < final(cache).entries@.len() ==> (exists|m: int|
                0 <= m < v@.len() && (#[trigger] final(cache).entries@[j]).0 == (
                #[trigger] v@[m]).id) || exists|j0: int|
                0 <= j0 < old(cache).entries@.len() && (#[trigger] old(cache).entries@[j0]).0
                    == final(cache).entries@[j].0,
{
    let ghost layers = sst_list_maps(v@);
    let n = v.len();
    let mut i: usize = 0;
    #[verifier::loop_isolation(false)]
    while i < n
        invariant
            0 <= i <= n,
            forall|m: int| 0 <= m < i ==> !(#[trigger] layers[m]).dom().contains(key@),
            cache_wf(*cache),
            list_coherent(*cache, v@),
            forall|t: SsTable|
                #[trigger] cache_coherent(*old(cache), t) && (forall|j: int|
                    0 <= j < v@.len() ==> t.id != (#[trigger] v@[j]).id) ==> cache_coherent(
                    *cache,
                    t,
                ),
            forall|j: int|
                0 <= j < cache.entries@.len() ==> (exists|m: int|
                    0 <= m < v@.len() && (#[trigger] cache.entries@[j]).0 == (#[trigger] v@[m]).id)
                    || exists|j0: int|
                    0 <= j0 < old(cache).entries@.len() && (#[trigger] old(cache).entries@[j0]).0
                        == cache.entries@[j].0,
        decreases n - i,
    {
        let ghost pre = *cache;
        proof {
            assert(layers[i as int] == v@[n - 1 - i as int]@);
            assert(cache_coherent(*cache, v@[n - 1 - i as int]));
        }
        let res = v[n - 1 - i].get(key, cache);
        proof {
            assert forall|j: int|
                0 <= j < cache.entries@.len() implies (exists|m: int|
                0 <= m < v@.len() && (#[trigger] cache.entries@[j]).0 == (#[trigger] v@[m]).id)
                    || exists|j0: int|
                    0 <= j0 < old(cache).entries@.len() && (#[trigger] old(cache).entries@[j0]).0
                        == cache.entries@[j].0 by {
                if cache.entries@[j].0 == v@[n - 1 - i as int].id {
                    assert(0 <= n - 1 - (i as int) && n - 1 - (i as int) < v@.len());
                } else {
                    let j0 = choose|j0: int|
                        0 <= j0 < pre.entries@.len() && (#[trigger] pre.entries@[j0]).0
                            == cache.entries@[j].0;
                }
            }
            assert forall|j: int|
                0 <= j < v@.len() implies cache_coherent(*cache, #[trigger] v@[j]) by {
                if v@[j].id != v@[n - 1 - i as int].id {
                    assert(cache_coherent(pre, v@[j]));
                } else {
                    if j != n - 1 - i as int {
                        assert(v@[j].id != v@[n - 1 - i as int].id);
                    }
                }
            }
        }
        match res {
            Some(x) => {
                proof {
                    lemma_layers_lookup_at(layers, key@, i as int);
                }
                return Some(x);
            },
            None => {},
        }
        i = i + 1;
    }
    proof {
        lemma_layers_lookup_at(layers, key@, n as int);
        assert(layers.skip(n as int) =~= Seq::<Map<Seq<u8>, Seq<u8>>>::empty());
    }
    None
}

/// The storage engine: the layered state, the shared block cache, and the
/// configured block size and flush threshold.
pub struct LsmStorage {
    pub inner: LsmStorageInner,
    pub cache: BlockCache,
    pub block_size: usize,
}

impl LsmStorage {
    /// Engine invariant: a well-formed state, a cache coherent with every
    /// table, no cache entry filed under an unassigned id, and a sane block
    /// size.
    pub open spec fn wf(&self) -> bool {
        &&& self.inner.wf()
        &&& cache_wf(self.cache)
        &&& list_coherent(self.cache, self.inner.l0_sstables@)
        &&& forall|li: int|
            0 <= li < self.inner.levels@.len() ==> list_coherent(
                self.cache,
                (#[trigger] self.inner.levels@[li])@,
            )
        &&& forall|j: int|
            0 <= j < self.cache.entries@.len() ==> (#[trigger] self.cache.entries@[j]).0
                < self.inner.next_sst_id
        &&& 4096 <= self.block_size <= 65536
    }

    /// The stored value for a key, tombstones included.
    pub open spec fn lookup(&self, k: Seq<u8>) -> Option<Seq<u8>> {
        self.inner.lookup(k)
    }

    /// The user-visible value for a key.
    pub open spec fn visible(&self, k: Seq<u8>) -> Option<Seq<u8>> {
        self.inner.visible(k)
    }

    /// Open a fresh, empty store.
    pub fn open() -> (r: LsmStorage)
        ensures
            r.wf(),
            forall|k: Seq<u8>| #[trigger] r.lookup(k) is None,
            r.inner.next_sst_id == 0,
    {
        LsmStorage {
            inner: LsmStorageInner::create(),
            cache: BlockCache::new(1048576),
            block_size: BLOCK_SIZE,
        }
    }

    /// Whether the active memtable has outgrown the flush threshold.
    pub fn needs_flush(&self) -> (r: bool)
        ensures
            r == (self.inner.memtable.spec_size() > MEMTABLE_FLUSH_THRESHOLD),
    {
        self.inner.memtable.size() > MEMTABLE_FLUSH_THRESHOLD
    }

    /// Read a key: the newest value written for it, or nothing when it was
    /// never written or last deleted.
    pub fn get(&mut self, key: &Vec<u8>) -> (r: Result<Option<Vec<u8>>, Error>)
        requires
            old(self).wf(),
        ensures
            final(self).wf(),
            final(self).inner == old(self).inner,
            final(self).block_size == old(self).block_size,
            r matches Ok(o) ==> match o {
                Some(v) => old(self).visible(key@) == Some(v@),
                None => old(self).visible(key@) is None,
            },
            r is Ok,
    {
        let ghost mem_layer = seq![self.inner.memtable@];
        let ghost imm_layers = self.inner.imm_memtables@.map_values(|m: MemTable| m@).reverse();
        let ghost l0_layers = sst_list_maps(self.inner.l0_sstables@);
        let ghost lvl_layers = levels_layers(self.inner.levels@);
        proof {
            lemma_layers_lookup_concat(
                mem_layer + imm_layers + l0_layers,
                lvl_layers,
                key@,
            );
            lemma_layers_lookup_concat(mem_layer + imm_layers, l0_layers, key@);
            lemma_layers_lookup_concat(mem_layer, imm_layers, key@);
            assert(self.inner.all_layers() =~= (mem_layer + imm_layers + l0_layers) + lvl_layers);
            assert(mem_layer + imm_layers + l0_layers =~= (mem_layer + imm_layers) + l0_layers);
        }
        let found: Option<Vec<u8>> = match self.inner.memtable.get(key) {
            Some(v) => {
                proof {
                    assert(layers_lookup(mem_layer, key@) == Some(v@)) by {
                        assert(mem_layer[0] == self.inner.memtable@);
                        assert(mem_layer.drop_first() =~= Seq::<Map<Seq<u8>, Seq<u8>>>::empty());
                    }
                }
                Some(v)
            },
            None => {
                proof {
                    assert(layers_lookup(mem_layer, key@) is None) by {
                        assert(mem_layer[0] == self.inner.memtable@);
                        assert(!self.inner.memtable@.dom().contains(key@));
                        assert(mem_layer.drop_first() =~= Seq::<Map<Seq<u8>, Seq<u8>>>::empty());
                        assert(layers_lookup(Seq::<Map<Seq<u8>, Seq<u8>>>::empty(), key@) is None);
                    }
                }
                match probe_memtables(&self.inner.imm_memtables, key) {
                    Some(v) => Some(v),
                    None => {
                        proof {
                            lemma_tables_split(&self.inner);
                        }
                        let ghost pre = *self;
                        let res0 = probe_sst_list(&self.inner.l0_sstables, key, &mut self.cache);
                        proof {
                            lemma_l0_probe_preserves(&pre, self);
                        }
                        match res0 {
                            Some(v) => Some(v),
                            None => self.probe_levels(key),
                        }
                    },
                }
            },
        };
        match found {
            Some(v) => {
                if v.len() > 0 {
                    Ok(Some(v))
                } else {
                    Ok(None)
                }
            },
            None => Ok(None),
        }
    }

    /// Write a key-value pair.  The key must be non-empty and the value
    /// non-empty (an empty value is reserved for tombstones); both must fit
    /// the 16-bit on-wire length.
    pub fn put(&mut self, key: &Vec<u8>, value: &Vec<u8>) -> (r: Result<(), Error>)
        requires
            old(self).wf(),
        ensures
            final(self).wf(),
            r is Ok <==> (0 < key@.len() <= 0xFFFF && 0 < value@.len() <= 0xFFFF),
            r is Err ==> *final(self) == *old(self) && r == Result::<(), Error>::Err(
                Error::InvariantViolation,
            ),
            r is Ok ==> final(self).lookup(key@) == Some(value@) && forall|k2: Seq<u8>|
                k2 != key@ ==> #[trigger] final(self).lookup(k2) == old(self).lookup(k2),
    {
        if key.len() == 0 || key.len() > 0xFFFF || value.len() == 0 || value.len() > 0xFFFF {
            return Err(Error::InvariantViolation);
        }
        self.write_entry(key, value);
        Ok(())
    }

    /// Remove a key by writing a tombstone for it.
    pub fn delete(&mut self, key: &Vec<u8>) -> (r: Result<(), Error>)
        requires
            old(self).wf(),
        ensures
            final(self).wf(),
            r is Ok <==> 0 < key@.len() <= 0xFFFF,
            r is Err ==> *final(self) == *old(self) && r == Result::<(), Error>::Err(
                Error::InvariantViolation,
            ),
            r is Ok ==> final(self).lookup(key@) == Some(Seq::<u8>::empty())
                && final(self).visible(key@) is None && forall|k2: Seq<u8>|
                k2 != key@ ==> #[trigger] final(self).lookup(k2) == old(self).lookup(k2),
    {
        if key.len() == 0 || key.len() > 0xFFFF {
            return Err(Error::InvariantViolation);
        }
        let tomb: Vec<u8> = Vec::new();
        self.write_entry(key, &tomb);
        Ok(())
    }

    /// Insert an entry into the active memtable.
    fn write_entry(&mut self, key: &Vec<u8>, value: &Vec<u8>)
        requires
            old(self).wf(),
            0 < key@.len() <= 0xFFFF,
            value@.len() <= 0xFFFF,
        ensures
            final(self).wf(),
            final(self).block_size == old(self).block_size,
            final(self).lookup(key@) == Some(value@),
            forall|k2: Seq<u8>|
                k2 != key@ ==> #[trigger] final(self).lookup(k2) == old(self).lookup(k2),
    {
        let k = crate::keys::dup_bytes(key);
        let v = crate::keys::dup_bytes(value);
        self.inner.memtable.put(k, v);
        proof {
            let rest = old(self).inner.imm_memtables@.map_values(|m: MemTable| m@).reverse()
                + sst_list_maps(old(self).inner.l0_sstables@) + levels_layers(
                old(self).inner.levels@,
            );
            assert(self.inner.all_layers() =~= seq![self.inner.memtable@] + rest);
            assert(old(self).inner.all_layers() =~= seq![old(self).inner.memtable@] + rest);
            assert(self.inner.tables() =~= old(self).inner.tables());
            assert(self.inner.all_layers()[0] == self.inner.memtable@);
            assert(self.inner.memtable@.dom().contains(key@));
            assert(self.inner.lookup(key@) == Some(value@));
            assert forall|k2: Seq<u8>|
                k2 != key@ implies #[trigger] self.inner.lookup(k2) == old(self).inner.lookup(
                k2,
            ) by {
                assert(self.inner.all_layers().drop_first() =~= rest);
                assert(old(self).inner.all_layers().drop_first() =~= rest);
                if self.inner.memtable@.dom().contains(k2) {
                    assert(old(self).inner.memtable@.dom().contains(k2));
                    assert(self.inner.memtable@[k2] == old(self).inner.memtable@[k2]);
                }
            }
        }
    }

    /// The memtables in drain order after the active one (when it holds
    /// data) is archived: the oldest immutable memtable leaves first.
    pub open spec fn flush_queue(&self) -> Seq<MemTable> {
        if self.inner.memtable@.dom().len() > 0 {
            self.inner.imm_memtables@.push(self.inner.memtable)
        } else {
            self.inner.imm_memtables@
        }
    }

    /// Flush: move the active memtable behind the immutable queue if it
    /// holds data, then drain the oldest immutable memtable into a new L0
    /// table.  Returns the new table's id and file bytes, or nothing when
    /// there was nothing to flush.  The stored data is unchanged either
    /// way.
    pub fn sync(&mut self) -> (r: Result<Option<(usize, Vec<u8>)>, Error>)
        requires
            old(self).wf(),
        ensures
            final(self).wf(),
            final(self).block_size == old(self).block_size,
            forall|k2: Seq<u8>| #[trigger] final(self).lookup(k2) == old(self).lookup(k2),
            old(self).flush_queue().len() == 0 ==> (r == Result::<
                Option<(usize, Vec<u8>)>,
                Error,
            >::Ok(None) && *final(self) == *old(self)),
            old(self).flush_queue().len() > 0 ==> ((r is Err) <==> (old(self).inner.next_sst_id
                == usize::MAX || !flush_fits(
                old(self).flush_queue()[0]@,
                old(self).block_size as int,
            ))),
            old(self).flush_queue().len() > 0 && r is Ok ==> r matches Ok(Some(_)),
            r is Err ==> r == Result::<Option<(usize, Vec<u8>)>, Error>::Err(
                Error::InvariantViolation,
            ),
            r matches Ok(Some((id, bytes))) ==> {
                &&& id == old(self).inner.next_sst_id
                &&& final(self).inner.next_sst_id == id + 1
                &&& final(self).inner.memtable@.dom().len() == 0
                &&& final(self).inner.levels == old(self).inner.levels
                &&& final(self).inner.imm_memtables@ == old(self).flush_queue().drop_first()
                &&& final(self).inner.l0_sstables@.len() == old(self).inner.l0_sstables@.len() + 1
                &&& final(self).inner.l0_sstables@ == old(self).inner.l0_sstables@.push(
                    final(self).inner.l0_sstables@.last(),
                )
                &&& final(self).inner.l0_sstables@.last().id == id
                &&& final(self).inner.l0_sstables@.last()@ =~= old(self).flush_queue()[0]@
                &&& bytes@ == final(self).inner.l0_sstables@.last().data@
            },
    {
        let has_mem = self.inner.memtable.len() > 0;
        if !has_mem && self.inner.imm_memtables.len() == 0 {
            proof {
                assert(old(self).flush_queue().len() == 0);
            }
            return Ok(None);
        }
        if self.inner.next_sst_id == usize::MAX {
            return Err(Error::InvariantViolation);
        }
        if has_mem {
            self.inner.archive_mem_table();
            proof {
                assert(self.wf()) by {
                    assert(self.inner.tables() =~= old(self).inner.tables());
                }
            }
        }
        let ghost mid = *self;
        proof {
            assert(mid.inner.imm_memtables@ =~= old(self).flush_queue());
        }
        // drain the oldest immutable memtable
        let builder = match self.inner.imm_memtables[0].to_sst(self.block_size) {
            Ok(b) => b,
            Err(e) => {
                proof {
                    let es = choose|es: Seq<(Seq<u8>, Seq<u8>)>|
                        entries_match_map(
                            es,
                            mid.inner.imm_memtables@[0]@,
                            KeyBound::Unbounded,
                            KeyBound::Unbounded,
                        ) && crate::table_builder::feed(
                            self.block_size as int,
                            0,
                            6,
                            0,
                            es,
                            0,
                        ) is None;
                    assert(!flush_fits(old(self).flush_queue()[0]@, old(self).block_size as int));
                }
                return Err(e);
            },
        };
        proof {
            assert(flush_fits(old(self).flush_queue()[0]@, old(self).block_size as int));
        }
        let id = self.inner.next_sst_id;
        let sst = builder.build(id);
        let bytes = crate::keys::dup_bytes(&sst.data);
        proof {
            crate::entries::lemma_sorted_distinct(builder.all_entries());
            crate::entries::lemma_map_of_entries(builder.all_entries());
            lemma_matched_map(builder.all_entries(), mid.inner.imm_memtables@[0]@);
            assert(sst@ =~= mid.inner.imm_memtables@[0]@);
        }
        let _ = self.inner.imm_memtables.remove(0);
        self.inner.l0_sstables.push(sst);
        self.inner.next_sst_id = self.inner.next_sst_id + 1;
        proof {
            lemma_sync_shape(&mid, self, sst@);
            assert(self.inner.imm_memtables@ =~= old(self).flush_queue().drop_first());
        }
        Ok(Some((id, bytes)))
    }

    /// Probe each level in turn, shallowest first.
    fn probe_levels(&mut self, key: &Vec<u8>) -> (r: Option<Vec<u8>>)
        requires
            old(self).wf(),
        ensures
            final(self).wf(),
            final(self).inner == old(self).inner,
            final(self).block_size == old(self).block_size,
            match r {
                Some(x) => layers_lookup(levels_layers(old(self).inner.levels@), key@) == Some(x@),
                None => layers_lookup(levels_layers(old(self).inner.levels@), key@) is None,
            },
    {
        let ghost ls = self.inner.levels@;
        let n = self.inner.levels.len();
        let mut i: usize = 0;
        proof {
            assert(ls.skip(0) =~= ls);
        }
        #[verifier::loop_isolation(false)]
        while i < n
            invariant
                0 <= i <= n,
                self.wf(),
                self.inner == old(self).inner,
                self.block_size == old(self).block_size,
                layers_lookup(levels_layers(ls), key@) == layers_lookup(
                    levels_layers(ls.skip(i as int)),
                    key@,
                ),
            decreases n - i,
        {
            proof {
                lemma_storage_level_facts(self, i as int);
                assert(ls.skip(i as int)[0] == ls[i as int]);
                assert(ls.skip(i as int).drop_first() =~= ls.skip(i + 1));
                lemma_layers_lookup_concat(
                    sst_list_maps(ls[i as int]@),
                    levels_layers(ls.skip(i + 1)),
                    key@,
                );
                assert(levels_layers(ls.skip(i as int)) == sst_list_maps(ls[i as int]@)
                    + levels_layers(ls.skip(i + 1)));
            }
            let ghost pre = *self;
            let lvl = &self.inner.levels[i];
            let res = probe_sst_list(lvl, key, &mut self.cache);
            proof {
                lemma_probe_preserves_coherence(&pre, self, i as int);
            }
            match res {
                Some(v) => {
                    return Some(v);
                },
                None => {},
            }
            i = i + 1;
        }
        proof {
            assert(ls.skip(n as int) =~= Seq::<Vec<SsTable>>::empty());
            assert(levels_layers(ls.skip(n as int)) =~= Seq::<Map<Seq<u8>, Seq<u8>>>::empty());
        }
        None
    }
}

/// The flat position of a level table in the level run.
pub open spec fn gpos(ls: Seq<Vec<SsTable>>, li: int, i: int) -> int
    decreases li,
    when 0 <= li
{
    if li == 0 {
        i
    } else {
        ls[0]@.len() + gpos(ls.drop_first(), li - 1, i)
    }
}

/// The flat position addresses the level table.
proof fn lemma_gpos(ls: Seq<Vec<SsTable>>, li: int, i: int)
    requires
        0 <= li < ls.len(),
        0 <= i < ls[li]@.len(),
    ensures
        i <= gpos(ls, li, i) < levels_tables(ls).len(),
        levels_tables(ls)[gpos(ls, li, i)] == ls[li]@[i],
    decreases li,
{
    if li == 0 {
    } else {
        assert(ls.drop_first()[li - 1] == ls[li]);
        lemma_gpos(ls.drop_first(), li - 1, i);
    }
}

/// Flat positions respect the (level, slot) order.
proof fn lemma_gpos_mono(ls: Seq<Vec<SsTable>>, li: int, i: int, lj: int, j: int)
    requires
        0 <= li <= lj < ls.len(),
        0 <= i < ls[li]@.len(),
        0 <= j < ls[lj]@.len(),
        li < lj || i < j,
    ensures
        gpos(ls, li, i) < gpos(ls, lj, j),
    decreases li + lj,
{
    if li == 0 && lj == 0 {
    } else if li == 0 {
        assert(ls.drop_first()[lj - 1] == ls[lj]);
        lemma_gpos(ls.drop_first(), lj - 1, j);
    } else {
        assert(ls.drop_first()[li - 1] == ls[li]);
        assert(ls.drop_first()[lj - 1] == ls[lj]);
        lemma_gpos_mono(ls.drop_first(), li - 1, i, lj - 1, j);
    }
}

/// What the engine invariant gives of one level: tables well-formed with
/// distinct ids, coherent with the cache.
proof fn lemma_storage_level_facts(s: &LsmStorage, li: int)
    requires
        s.wf(),
        0 <= li < s.inner.levels@.len(),
    ensures
        forall|i: int| 0 <= i < s.inner.levels@[li]@.len() ==> (#[trigger] s.inner.levels@[li]@[i]).wf(),
        forall|i: int, j: int|
            0 <= i < j < s.inner.levels@[li]@.len() ==> (#[trigger] s.inner.levels@[li]@[i]).id != (
            #[trigger] s.inner.levels@[li]@[j]).id,
        list_coherent(s.cache, s.inner.levels@[li]@),
{
    let ls = s.inner.levels@;
    let base = s.inner.l0_sstables@.len() as int;
    assert forall|i: int|
        0 <= i < ls[li]@.len() implies (#[trigger] ls[li]@[i]).wf() by {
        lemma_gpos(ls, li, i);
        assert(s.inner.tables()[base + gpos(ls, li, i)] == ls[li]@[i]);
    }
    assert forall|i: int, j: int|
        0 <= i < j < ls[li]@.len() implies (#[trigger] ls[li]@[i]).id != (#[trigger] ls[li]@[j]).id by {
        lemma_gpos(ls, li, i);
        lemma_gpos(ls, li, j);
        lemma_gpos_mono(ls, li, i, li, j);
        assert(s.inner.tables()[base + gpos(ls, li, i)] == ls[li]@[i]);
        assert(s.inner.tables()[base + gpos(ls, li, j)] == ls[li]@[j]);
    }
}

/// Probing one level's tables keeps the cache coherent with every table of
/// the engine: all other tables carry different ids.
proof fn lemma_probe_preserves_coherence(pre: &LsmStorage, post: &LsmStorage, li: int)
    requires
        pre.wf(),
        0 <= li < pre.inner.levels@.len(),
        post.inner == pre.inner,
        post.block_size == pre.block_size,
        cache_wf(post.cache),
        list_coherent(post.cache, pre.inner.levels@[li]@),
        forall|t: SsTable|
            #[trigger] cache_coherent(pre.cache, t) && (forall|j: int|
                0 <= j < pre.inner.levels@[li]@.len() ==> t.id != (
                #[trigger] pre.inner.levels@[li]@[j]).id) ==> cache_coherent(post.cache, t),
        forall|j: int|
            0 <= j < post.cache.entries@.len() ==> (exists|m: int|
                0 <= m < pre.inner.levels@[li]@.len() && (#[trigger] post.cache.entries@[j]).0 == (
                #[trigger] pre.inner.levels@[li]@[m]).id) || exists|j0: int|
                0 <= j0 < pre.cache.entries@.len() && (#[trigger] pre.cache.entries@[j0]).0
                    == post.cache.entries@[j].0,
    ensures
        post.wf(),
{
    let ls = pre.inner.levels@;
    let base = pre.inner.l0_sstables@.len() as int;
    assert forall|j: int|
        0 <= j < post.cache.entries@.len() implies (#[trigger] post.cache.entries@[j]).0
            < pre.inner.next_sst_id by {
        if exists|m: int|
            0 <= m < ls[li]@.len() && (#[trigger] post.cache.entries@[j]).0 == (
            #[trigger] ls[li]@[m]).id {
            let m = choose|m: int|
                0 <= m < ls[li]@.len() && (#[trigger] post.cache.entries@[j]).0 == (
                #[trigger] ls[li]@[m]).id;
            lemma_gpos(ls, li, m);
            assert(pre.inner.tables()[base + gpos(ls, li, m)] == ls[li]@[m]);
        }
    }
    assert forall|g: int|
        0 <= g < pre.inner.l0_sstables@.len() implies cache_coherent(
        post.cache,
        #[trigger] pre.inner.l0_sstables@[g],
    ) by {
        let t = pre.inner.l0_sstables@[g];
        assert(cache_coherent(pre.cache, t));
        assert forall|j: int|
            0 <= j < ls[li]@.len() implies t.id != (#[trigger] ls[li]@[j]).id by {
            lemma_gpos(ls, li, j);
            assert(pre.inner.tables()[g] == t);
            assert(pre.inner.tables()[base + gpos(ls, li, j)] == ls[li]@[j]);
        }
    }
    assert forall|lj: int|
        0 <= lj < ls.len() implies list_coherent(post.cache, (#[trigger] ls[lj])@) by {
        if lj == li {
        } else {
            assert forall|i: int|
                0 <= i < ls[lj]@.len() implies cache_coherent(post.cache, #[trigger] ls[lj]@[i]) by {
                let t = ls[lj]@[i];
                assert(cache_coherent(pre.cache, t));
                assert forall|j: int|
                    0 <= j < ls[li]@.len() implies t.id != (#[trigger] ls[li]@[j]).id by {
                    lemma_gpos(ls, li, j);
                    lemma_gpos(ls, lj, i);
                    if lj < li {
                        lemma_gpos_mono(ls, lj, i, li, j);
                    } else {
                        lemma_gpos_mono(ls, li, j, lj, i);
                    }
                    assert(pre.inner.tables()[base + gpos(ls, lj, i)] == t);
                    assert(pre.inner.tables()[base + gpos(ls, li, j)] == ls[li]@[j]);
                }
            }
        }
    }
}


/// What the state invariant gives of the L0 run: tables well-formed with
/// distinct ids.
proof fn lemma_tables_split(s: &LsmStorageInner)
    requires
        s.wf(),
    ensures
        forall|i: int| 0 <= i < s.l0_sstables@.len() ==> (#[trigger] s.l0_sstables@[i]).wf(),
        forall|i: int, j: int|
            0 <= i < j < s.l0_sstables@.len() ==> (#[trigger] s.l0_sstables@[i]).id != (
            #[trigger] s.l0_sstables@[j]).id,
{
    assert forall|i: int|
        0 <= i < s.l0_sstables@.len() implies (#[trigger] s.l0_sstables@[i]).wf() by {
        assert(s.tables()[i] == s.l0_sstables@[i]);
    }
    assert forall|i: int, j: int|
        0 <= i < j < s.l0_sstables@.len() implies (#[trigger] s.l0_sstables@[i]).id != (
    #[trigger] s.l0_sstables@[j]).id by {
        assert(s.tables()[i] == s.l0_sstables@[i] && s.tables()[j] == s.l0_sstables@[j]);
    }
}

/// Probing the L0 tables keeps the cache coherent with every table of the
/// engine: the level tables carry different ids.
proof fn lemma_l0_probe_preserves(pre: &LsmStorage, post: &LsmStorage)
    requires
        pre.wf(),
        post.inner == pre.inner,
        post.block_size == pre.block_size,
        cache_wf(post.cache),
        list_coherent(post.cache, pre.inner.l0_sstables@),
        forall|t: SsTable|
            #[trigger] cache_coherent(pre.cache, t) && (forall|j: int|
                0 <= j < pre.inner.l0_sstables@.len() ==> t.id != (
                #[trigger] pre.inner.l0_sstables@[j]).id) ==> cache_coherent(post.cache, t),
        forall|j: int|
            0 <= j < post.cache.entries@.len() ==> (exists|m: int|
                0 <= m < pre.inner.l0_sstables@.len() && (#[trigger] post.cache.entries@[j]).0 == (
                #[trigger] pre.inner.l0_sstables@[m]).id) || exists|j0: int|
                0 <= j0 < pre.cache.entries@.len() && (#[trigger] pre.cache.entries@[j0]).0
                    == post.cache.entries@[j].0,
    ensures
        post.wf(),
{
    let ls = pre.inner.levels@;
    let base = pre.inner.l0_sstables@.len() as int;
    assert forall|j: int|
        0 <= j < post.cache.entries@.len() implies (#[trigger] post.cache.entries@[j]).0
            < pre.inner.next_sst_id by {
        if exists|m: int|
            0 <= m < pre.inner.l0_sstables@.len() && (#[trigger] post.cache.entries@[j]).0 == (
            #[trigger] pre.inner.l0_sstables@[m]).id {
            let m = choose|m: int|
                0 <= m < pre.inner.l0_sstables@.len() && (#[trigger] post.cache.entries@[j]).0 == (
                #[trigger] pre.inner.l0_sstables@[m]).id;
            assert(pre.inner.tables()[m] == pre.inner.l0_sstables@[m]);
        }
    }
    assert forall|lj: int|
        0 <= lj < ls.len() implies list_coherent(post.cache, (#[trigger] ls[lj])@) by {
        assert forall|i: int|
            0 <= i < ls[lj]@.len() implies cache_coherent(post.cache, #[trigger] ls[lj]@[i]) by {
            let t = ls[lj]@[i];
            assert(cache_coherent(pre.cache, t));
            assert forall|j: int|
                0 <= j < pre.inner.l0_sstables@.len() implies t.id != (
            #[trigger] pre.inner.l0_sstables@[j]).id by {
                lemma_gpos(ls, lj, i);
                assert(pre.inner.tables()[base + gpos(ls, lj, i)] == t);
                assert(pre.inner.tables()[j] == pre.inner.l0_sstables@[j]);
            }
        }
    }
}


/// Entries that mirror a map denote that map.
proof fn lemma_matched_map(es: Seq<(Seq<u8>, Seq<u8>)>, m: Map<Seq<u8>, Seq<u8>>)
    requires
        entries_match_map(es, m, KeyBound::Unbounded, KeyBound::Unbounded),
    ensures
        crate::entries::map_of_entries(es) =~= m,
{
    crate::entries::lemma_sorted_distinct(es);
    crate::entries::lemma_map_of_entries(es);
    let km = crate::entries::map_of_entries(es);
    assert forall|k: Seq<u8>| #[trigger] km.dom().contains(k) implies m.dom().contains(k)
        && km[k] == m[k] by {
        let i = choose|i: int| 0 <= i < es.len() && (#[trigger] es[i]).0 == k;
        assert(km[es[i].0] == es[i].1);
    }
    assert forall|k: Seq<u8>| #[trigger] m.dom().contains(k) implies km.dom().contains(k) by {
        let i = choose|i: int| 0 <= i < es.len() && (#[trigger] es[i]).0 == k;
        assert(km.dom().contains(es[i].0));
    }
}

/// Flushing the oldest immutable memtable into a fresh L0 table preserves
/// the stored data and the engine invariant.
#[verifier::rlimit(100)]
proof fn lemma_sync_shape(mid: &LsmStorage, post: &LsmStorage, newmap: Map<Seq<u8>, Seq<u8>>)
    requires
        mid.wf(),
        mid.inner.imm_memtables@.len() > 0,
        mid.inner.next_sst_id < usize::MAX,
        post.inner.memtable == mid.inner.memtable,
        post.inner.imm_memtables@ == mid.inner.imm_memtables@.drop_first(),
        post.inner.l0_sstables@.len() == mid.inner.l0_sstables@.len() + 1,
        post.inner.l0_sstables@ == mid.inner.l0_sstables@.push(post.inner.l0_sstables@.last()),
        post.inner.l0_sstables@.last().wf(),
        post.inner.l0_sstables@.last()@ == newmap,
        newmap =~= mid.inner.imm_memtables@[0]@,
        post.inner.l0_sstables@.last().id == mid.inner.next_sst_id,
        post.inner.levels == mid.inner.levels,
        post.inner.next_sst_id == mid.inner.next_sst_id + 1,
        post.cache == mid.cache,
        post.block_size == mid.block_size,
    ensures
        post.wf(),
        forall|k2: Seq<u8>| #[trigger] post.lookup(k2) == mid.lookup(k2),
{
    let sst = post.inner.l0_sstables@.last();
    let base = mid.inner.l0_sstables@.len() as int;
    // tables: the new one goes in at position `base`
    assert(levels_tables(post.inner.levels@) == levels_tables(mid.inner.levels@));
    assert(post.inner.tables() =~= mid.inner.tables().insert(base, sst));
    assert forall|i: int|
        0 <= i < post.inner.tables().len() implies (#[trigger] post.inner.tables()[i]).wf()
            && post.inner.tables()[i].id < post.inner.next_sst_id by {
        if i < base {
            assert(post.inner.tables()[i] == mid.inner.tables()[i]);
        } else if i == base {
        } else {
            assert(post.inner.tables()[i] == mid.inner.tables()[i - 1]);
        }
    }
    assert forall|i: int, j: int|
        0 <= i < j < post.inner.tables().len() implies (#[trigger] post.inner.tables()[i]).id != (
    #[trigger] post.inner.tables()[j]).id by {
        let i0 = if i < base {
            i
        } else {
            i - 1
        };
        let j0 = if j < base {
            j
        } else {
            j - 1
        };
        if i == base {
            assert(post.inner.tables()[j] == mid.inner.tables()[j - 1]);
        } else if j == base {
            assert(post.inner.tables()[i] == mid.inner.tables()[i]);
        } else {
            assert(post.inner.tables()[i] == mid.inner.tables()[i0]);
            assert(post.inner.tables()[j] == mid.inner.tables()[j0]);
        }
    }
    // cache: nothing is filed under the fresh id
    assert(cache_coherent(post.cache, sst)) by {
        assert forall|j: int|
            0 <= j < post.cache.entries@.len() && (#[trigger] post.cache.entries@[j]).0 == sst.id
                implies false by {}
    }
    assert forall|li: int|
        0 <= li < post.inner.levels@.len() implies list_coherent(
        post.cache,
        (#[trigger] post.inner.levels@[li])@,
    ) by {
        assert(list_coherent(mid.cache, mid.inner.levels@[li]@));
    }
    // the stored data is unchanged: the flushed memtable's layer becomes
    // the newest L0 layer, at the same probe position
    let imm_mid = mid.inner.imm_memtables@.map_values(|m: MemTable| m@);
    let imm_post = post.inner.imm_memtables@.map_values(|m: MemTable| m@);
    assert(imm_post =~= imm_mid.drop_first());
    assert forall|k2: Seq<u8>| #[trigger] post.lookup(k2) == mid.lookup(k2) by {
        let head = seq![mid.inner.memtable@];
        let lvls = levels_layers(mid.inner.levels@);
        let l0_mid = sst_list_maps(mid.inner.l0_sstables@);
        let l0_post = sst_list_maps(post.inner.l0_sstables@);
        assert(l0_post =~= seq![newmap] + l0_mid);
        assert(imm_mid.reverse() =~= imm_post.reverse().push(imm_mid[0]));
        assert(mid.inner.all_layers() =~= (head + imm_post.reverse()) + (seq![imm_mid[0]] + l0_mid
            + lvls));
        assert(post.inner.all_layers() =~= (head + imm_post.reverse()) + (seq![newmap] + l0_mid
            + lvls));
        lemma_layers_lookup_concat(
            head + imm_post.reverse(),
            seq![imm_mid[0]] + l0_mid + lvls,
            k2,
        );
        lemma_layers_lookup_concat(
            head + imm_post.reverse(),
            seq![newmap] + l0_mid + lvls,
            k2,
        );
        assert(seq![imm_mid[0]] + l0_mid + lvls =~= seq![imm_mid[0]] + (l0_mid + lvls));
        assert(seq![newmap] + l0_mid + lvls =~= seq![newmap] + (l0_mid + lvls));
        lemma_layers_lookup_concat(seq![imm_mid[0]], l0_mid + lvls, k2);
        lemma_layers_lookup_concat(seq![newmap], l0_mid + lvls, k2);
        assert(layers_lookup(seq![imm_mid[0]], k2) == layers_lookup(seq![newmap], k2)) by {
            assert(seq![imm_mid[0]].drop_first() =~= Seq::<Map<Seq<u8>, Seq<u8>>>::empty());
            assert(seq![newmap].drop_first() =~= Seq::<Map<Seq<u8>, Seq<u8>>>::empty());
            assert(newmap == imm_mid[0]);
        }
    }
}



/// Whether a level holds enough tables to be folded into the next one:
/// the L0 run for level zero, the level's own run otherwise.
pub open spec fn compaction_due(s: LsmStorageInner, l: int) -> bool {
    if l == 0 {
        s.l0_sstables@.len() >= MIN_NUM_SST_FILES_TO_COMPACT
    } else {
        1 <= l && l - 1 < s.levels@.len() && s.levels@[l - 1]@.len()
            >= MIN_NUM_SST_FILES_TO_COMPACT
    }
}

impl LsmStorage {
    /// The level the background worker should compact next: the shallowest
    /// one that has gathered enough tables, or none.
    pub fn needs_compaction(&self) -> (r: Option<usize>)
        ensures
            r matches Some(l) ==> compaction_due(self.inner, l as int) && forall|l2: int|
                0 <= l2 < l ==> !compaction_due(self.inner, l2),
            r is None ==> forall|l2: int| 0 <= l2 ==> !compaction_due(self.inner, l2),
    {
        if self.inner.l0_sstables.len() >= MIN_NUM_SST_FILES_TO_COMPACT {
            return Some(0);
        }
        let n = self.inner.levels.len();
        let mut i: usize = 0;
        #[verifier::loop_isolation(false)]
        while i < n
            invariant
                0 <= i <= n,
                forall|l2: int| 0 <= l2 <= i ==> !compaction_due(self.inner, l2),
            decreases n - i,
        {
            if self.inner.levels[i].len() >= MIN_NUM_SST_FILES_TO_COMPACT {
                return Some(i + 1);
            }
            i = i + 1;
        }
        proof {
            assert forall|l2: int| 0 <= l2 implies !compaction_due(self.inner, l2) by {
                if 1 <= l2 && l2 - 1 < n {
                    assert(!compaction_due(self.inner, l2));
                }
            }
        }
        None
    }
}

} // verus!