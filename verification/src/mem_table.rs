//! The memtable: the in-memory ordered map that absorbs writes, backed by a
//! concurrent skip list.

use std::ops::Bound;

use vstd::prelude::*;

use crate::iterators::StorageIterator;
use crate::keys::{in_bounds, lex_lt, KeyBound};
use crate::table_builder::{feed, SsTableBuilder};
use crate::block::Error;

verus! {

#[verifier::external_type_specification]
#[verifier::external_body]
#[verifier::reject_recursive_types(K)]
#[verifier::reject_recursive_types(V)]
pub struct ExSkipMap<K, V>(crossbeam_skiplist::SkipMap<K, V>);

/// What a skip map of byte strings holds, as a map from key bytes to value
/// bytes.
pub uninterp spec fn skip_map_contents(m: crossbeam_skiplist::SkipMap<Vec<u8>, Vec<u8>>) -> Map<
    Seq<u8>,
    Seq<u8>,
>;

/// Relies on `SkipMap::new`: a fresh map holds nothing.
#[verifier::external_body]
fn skip_map_new() -> (r: crossbeam_skiplist::SkipMap<Vec<u8>, Vec<u8>>)
    ensures
        (skip_map_contents(r) == Map::<Seq<u8>, Seq<u8>>::empty()),
{
    crossbeam_skiplist::SkipMap::new()
}

/// Relies on `SkipMap::insert`: stores the value under the key, replacing
/// any existing entry for it.
#[verifier::external_body]
fn skip_map_insert(
    m: &mut crossbeam_skiplist::SkipMap<Vec<u8>, Vec<u8>>,
    key: Vec<u8>,
    value: Vec<u8>,
)
    ensures
        skip_map_contents(*final(m)) == skip_map_contents(*old(m)).insert(key@, value@),
{
    m.insert(key, value);
}

/// Relies on `SkipMap::get`: returns the value stored under the key, if
/// any.
#[verifier::external_body]
fn skip_map_get(m: &crossbeam_skiplist::SkipMap<Vec<u8>, Vec<u8>>, key: &Vec<u8>) -> (r: Option<
    Vec<u8>,
>)
    ensures
        match r {
            Some(v) => skip_map_contents(*m).dom().contains(key@) && v@ == skip_map_contents(*m)[key@],
            None => !skip_map_contents(*m).dom().contains(key@),
        },
{
    m.get(key).map(|e| e.value().clone())
}

/// Relies on `SkipMap::len`: the number of entries in the map.
#[verifier::external_body]
fn skip_map_len(m: &crossbeam_skiplist::SkipMap<Vec<u8>, Vec<u8>>) -> (n: usize)
    ensures
        n == skip_map_contents(*m).dom().len(),
{
    m.len()
}

/// Relies on `SkipMap::range`, which yields exactly the entries whose keys
/// lie within the bounds, in ascending key order; `Vec<u8>`'s `Ord` is the
/// unsigned lexicographic byte order.
#[verifier::external_body]
fn skip_map_range(
    m: &crossbeam_skiplist::SkipMap<Vec<u8>, Vec<u8>>,
    lower: &KeyBound,
    upper: &KeyBound,
) -> (r: Vec<(Vec<u8>, Vec<u8>)>)
    ensures
        forall|i: int, j: int| 0 <= i < j < r@.len() ==> lex_lt(#[trigger] r@[i].0@, #[trigger] r@[j].0@),
        forall|i: int|
            0 <= i < r@.len() ==> skip_map_contents(*m).dom().contains(#[trigger] r@[i].0@)
                && r@[i].1@ == skip_map_contents(*m)[r@[i].0@] && in_bounds(*lower, *upper, r@[i].0@),
        forall|k: Seq<u8>|
            skip_map_contents(*m).dom().contains(k) && in_bounds(*lower, *upper, k)
                ==> exists|i: int| 0 <= i < r@.len() && (#[trigger] r@[i].0)@ == k,
{
    let lo = match lower {
        KeyBound::Unbounded => Bound::Unbounded,
        KeyBound::Included(v) => Bound::Included(v.clone()),
        KeyBound::Excluded(v) => Bound::Excluded(v.clone()),
    };
    let hi = match upper {
        KeyBound::Unbounded => Bound::Unbounded,
        KeyBound::Included(v) => Bound::Included(v.clone()),
        KeyBound::Excluded(v) => Bound::Excluded(v.clone()),
    };
    m.range((lo, hi)).map(|e| (e.key().clone(), e.value().clone())).collect()
}

/// An in-memory ordered map from keys to values, with an upper-bound byte
/// counter that grows by key length plus value length at every put.
pub struct MemTable {
    map: crossbeam_skiplist::SkipMap<Vec<u8>, Vec<u8>>,
    size: usize,
}

impl View for MemTable {
    type V = Map<Seq<u8>, Seq<u8>>;

    closed spec fn view(&self) -> Map<Seq<u8>, Seq<u8>> {
        skip_map_contents(self.map)
    }
}

/// Every key of the map is non-empty and fits the on-wire length, as does
/// every value.
pub open spec fn table_map_wf(m: Map<Seq<u8>, Seq<u8>>) -> bool {
    &&& m.dom().finite()
    &&& forall|k: Seq<u8>| m.dom().contains(k) ==> 0 < k.len() <= 0xFFFF
    &&& forall|k: Seq<u8>| m.dom().contains(k) ==> (#[trigger] m[k]).len() <= 0xFFFF
}

impl MemTable {
    /// The size counter.
    pub closed spec fn spec_size(&self) -> int {
        self.size as int
    }

    /// Memtable invariant: all keys and values fit the on-wire limits.
    pub open spec fn wf(&self) -> bool {
        table_map_wf(self@)
    }

    /// Create an empty memtable.
    pub fn create() -> (r: MemTable)
        ensures
            r.wf(),
            r@ == Map::<Seq<u8>, Seq<u8>>::empty(),
            r.spec_size() == 0,
    {
        MemTable { map: skip_map_new(), size: 0 }
    }

    /// Look a key up.
    pub fn get(&self, key: &Vec<u8>) -> (r: Option<Vec<u8>>)
        ensures
            match r {
                Some(v) => self@.dom().contains(key@) && v@ == self@[key@],
                None => !self@.dom().contains(key@),
            },
    {
        skip_map_get(&self.map, key)
    }

    /// The accumulated byte size: the sum of key and value lengths over all
    /// puts, saturating; overwrites are not discounted, so this bounds the
    /// held bytes from above.
    pub fn size(&self) -> (r: usize)
        ensures
            r == self.spec_size(),
    {
        self.size
    }

    /// The number of keys held.
    pub fn len(&self) -> (r: usize)
        requires
            self.wf(),
        ensures
            r == self@.dom().len(),
    {
        skip_map_len(&self.map)
    }

    /// Store a value under a key, replacing any previous value.  An empty
    /// value is a tombstone.
    pub fn put(&mut self, key: Vec<u8>, value: Vec<u8>)
        requires
            old(self).wf(),
            0 < key@.len() <= 0xFFFF,
            value@.len() <= 0xFFFF,
        ensures
            final(self).wf(),
            final(self)@ == old(self)@.insert(key@, value@),
            final(self).spec_size() == if old(self).spec_size() + key@.len() + value@.len()
                <= usize::MAX {
                old(self).spec_size() + key@.len() + value@.len()
            } else {
                usize::MAX as int
            },
    {
        let add = key.len() + value.len();
        if self.size <= usize::MAX - add {
            self.size = self.size + add;
        } else {
            self.size = usize::MAX;
        }
        let ghost k = key@;
        let ghost v = value@;
        skip_map_insert(&mut self.map, key, value);
        proof {
            assert forall|k2: Seq<u8>| self@.dom().contains(k2) implies 0 < k2.len() <= 0xFFFF && (
            #[trigger] self@[k2]).len() <= 0xFFFF by {
                if k2 != k {
                    assert(old(self)@.dom().contains(k2));
                }
            }
        }
    }

    /// Scan a key range: all entries within the bounds, in ascending key
    /// order.
    pub fn scan(&self, lower: &KeyBound, upper: &KeyBound) -> (r: MemTableIterator)
        requires
            self.wf(),
        ensures
            r.inv(),
            r.idx == 0,
            entries_match_map(r.entries(), self@, *lower, *upper),
    {
        let entries = skip_map_range(&self.map, lower, upper);
        let it = MemTableIterator { entries, idx: 0 };
        proof {
            let es = it.all_entries();
            assert(it.entries() =~= es);
            assert forall|i: int| 0 <= i < es.len() implies self@.dom().contains(#[trigger] es[i].0)
                && es[i].1 == self@[es[i].0] && in_bounds(*lower, *upper, es[i].0) && es[i].0.len()
                > 0 by {
                assert(es[i].0 == it.entries@[i].0@ && es[i].1 == it.entries@[i].1@);
            }
            assert forall|i: int, j: int| 0 <= i < j < es.len() implies lex_lt(
                #[trigger] es[i].0,
                #[trigger] es[j].0,
            ) by {
                assert(es[i].0 == it.entries@[i].0@ && es[j].0 == it.entries@[j].0@);
            }
            assert forall|k: Seq<u8>|
                self@.dom().contains(k) && in_bounds(*lower, *upper, k) implies exists|i: int|
                0 <= i < es.len() && (#[trigger] es[i]).0 == k by {
                let i = choose|i: int| 0 <= i < it.entries@.len() && (#[trigger] it.entries@[i].0)@ == k;
                assert(es[i].0 == k);
            }
        }
        it
    }
}

/// The view of a vector of owned entries.
pub open spec fn entries_view(v: Seq<(Vec<u8>, Vec<u8>)>) -> Seq<(Seq<u8>, Seq<u8>)> {
    v.map_values(|e: (Vec<u8>, Vec<u8>)| (e.0@, e.1@))
}

/// `es` is exactly the portion of `m` within the bounds, sorted: strictly
/// ascending, every entry from `m` and in bounds, and every in-bounds key
/// of `m` present.
pub open spec fn entries_match_map(
    es: Seq<(Seq<u8>, Seq<u8>)>,
    m: Map<Seq<u8>, Seq<u8>>,
    lower: KeyBound,
    upper: KeyBound,
) -> bool {
    &&& forall|i: int, j: int| 0 <= i < j < es.len() ==> lex_lt(#[trigger] es[i].0, #[trigger] es[j].0)
    &&& forall|i: int|
        0 <= i < es.len() ==> m.dom().contains(#[trigger] es[i].0) && es[i].1 == m[es[i].0]
            && in_bounds(lower, upper, es[i].0)
    &&& forall|k: Seq<u8>|
        m.dom().contains(k) && in_bounds(lower, upper, k) ==> exists|i: int|
            0 <= i < es.len() && (#[trigger] es[i]).0 == k
}

/// An iterator over a memtable range: the entries are captured at scan
/// time, so later writes to the memtable do not affect it.
pub struct MemTableIterator {
    pub entries: Vec<(Vec<u8>, Vec<u8>)>,
    pub idx: usize,
}

impl MemTableIterator {
    /// The entries captured at scan time, all of them.
    pub open spec fn all_entries(&self) -> Seq<(Seq<u8>, Seq<u8>)> {
        entries_view(self.entries@)
    }
}

impl StorageIterator for MemTableIterator {
    open spec fn inv(&self) -> bool {
        &&& self.idx <= self.entries@.len()
        &&& forall|i: int, j: int|
            0 <= i < j < self.all_entries().len() ==> lex_lt(
                #[trigger] self.all_entries()[i].0,
                #[trigger] self.all_entries()[j].0,
            )
        &&& forall|i: int|
            0 <= i < self.all_entries().len() ==> (#[trigger] self.all_entries()[i]).0.len() > 0
    }

    open spec fn entries(&self) -> Seq<(Seq<u8>, Seq<u8>)> {
        self.all_entries().skip(self.idx as int)
    }

    proof fn lemma_entries_sorted(&self) {
    }

    fn is_valid(&self) -> (r: bool) {
        self.idx < self.entries.len()
    }

    fn key(&self) -> (k: &Vec<u8>) {
        &self.entries[self.idx].0
    }

    fn value(&self) -> (v: &Vec<u8>) {
        &self.entries[self.idx].1
    }

    fn next(&mut self) {
        if self.idx < self.entries.len() {
            self.idx = self.idx + 1;
            proof {
                assert(self.all_entries() == old(self).all_entries());
                assert(self.all_entries().skip(self.idx as int) =~= self.all_entries().skip(
                    self.idx - 1,
                ).drop_first());
            }
        } else {
            proof {
                assert(self.all_entries() == old(self).all_entries());
            }
        }
    }
}


impl MemTable {
    /// Stream the table's entries, in key order, into an SST builder.
    /// Fails only when the resulting table would pass the file-size budget.
    pub fn to_sst(&self, block_size: usize) -> (r: Result<SsTableBuilder, Error>)
        requires
            self.wf(),
            8 <= block_size <= 65536,
        ensures
            r matches Ok(b) ==> {
                &&& b.wf()
                &&& b.block_size == block_size
                &&& entries_match_map(
                    b.all_entries(),
                    self@,
                    KeyBound::Unbounded,
                    KeyBound::Unbounded,
                )
                &&& b.all_entries().len() == self@.dom().len()
            },
            r is Err ==> r == Result::<SsTableBuilder, Error>::Err(Error::InvariantViolation)
                && exists|es: Seq<(Seq<u8>, Seq<u8>)>|
                entries_match_map(es, self@, KeyBound::Unbounded, KeyBound::Unbounded) && feed(
                    block_size as int,
                    0,
                    6,
                    0,
                    es,
                    0,
                ) is None,
            r is Ok ==> forall|es: Seq<(Seq<u8>, Seq<u8>)>|
                entries_match_map(es, self@, KeyBound::Unbounded, KeyBound::Unbounded)
                    ==> #[trigger] feed(block_size as int, 0, 6, 0, es, 0) is Some,
    {
        let it = self.scan(&KeyBound::Unbounded, &KeyBound::Unbounded);
        let ghost es = it.entries();
        proof {
            assert(es =~= entries_view(it.entries@));
            assert forall|i: int, j: int|
                0 <= i < j < it.entries@.len() implies lex_lt(
                (#[trigger] it.entries@[i]).0@,
                (#[trigger] it.entries@[j]).0@,
            ) by {
                assert(es[i].0 == it.entries@[i].0@ && es[j].0 == it.entries@[j].0@);
            }
            assert forall|i: int|
                0 <= i < it.entries@.len() implies 0 < (#[trigger] it.entries@[i]).0@.len() <= 0xFFFF
                    && it.entries@[i].1@.len() <= 0xFFFF by {
                assert(es[i].0 == it.entries@[i].0@ && es[i].1 == it.entries@[i].1@);
                assert(self@.dom().contains(es[i].0));
            }
        }
        match crate::table_builder::build_from_entries(&it.entries, block_size) {
            Ok(b) => {
                proof {
                    crate::entries::lemma_sorted_distinct(es);
                    crate::entries::lemma_map_of_entries(es);
                    lemma_entries_count(es, self@);
                    assert forall|es2: Seq<(Seq<u8>, Seq<u8>)>|
                        entries_match_map(es2, self@, KeyBound::Unbounded, KeyBound::Unbounded)
                            implies #[trigger] feed(block_size as int, 0, 6, 0, es2, 0) is Some by {
                        lemma_matched_unique(es2, es, self@);
                    }
                }
                Ok(b)
            },
            Err(e) => {
                Err(e)
            },
        }
    }
}

/// Entries that exactly mirror a map, one per key, are as many as the map
/// has keys.
proof fn lemma_entries_count(es: Seq<(Seq<u8>, Seq<u8>)>, m: Map<Seq<u8>, Seq<u8>>)
    requires
        m.dom().finite(),
        entries_match_map(es, m, KeyBound::Unbounded, KeyBound::Unbounded),
    ensures
        es.len() == m.dom().len(),
{
    crate::entries::lemma_sorted_distinct(es);
    let km = crate::entries::map_of_entries(es);
    crate::entries::lemma_map_of_entries(es);
    assert(km.dom() =~= m.dom());
    lemma_sorted_entries_len(es);
    assert(km.dom().len() == es.len());
}

/// The map of a distinct-keyed entry sequence has one key per entry.
proof fn lemma_sorted_entries_len(es: Seq<(Seq<u8>, Seq<u8>)>)
    requires
        crate::entries::distinct_keys(es),
    ensures
        crate::entries::map_of_entries(es).dom().len() == es.len(),
    decreases es.len(),
{
    crate::entries::lemma_map_of_entries(es);
    if es.len() > 0 {
        let dl = es.drop_last();
        lemma_sorted_entries_len(dl);
        crate::entries::lemma_map_of_entries(dl);
        let m = crate::entries::map_of_entries(es);
        let md = crate::entries::map_of_entries(dl);
        assert(!md.dom().contains(es.last().0)) by {
            if md.dom().contains(es.last().0) {
                let i = choose|i: int| 0 <= i < dl.len() && (#[trigger] dl[i]).0 == es.last().0;
                assert(es[i].0 == es[es.len() - 1].0);
            }
        }
        assert(m.dom() =~= md.dom().insert(es.last().0));
        assert(md.dom().insert(es.last().0).len() == md.dom().len() + 1);
    }
}


/// Two sorted entry runs that mirror the same map are the same run.
pub proof fn lemma_matched_unique(
    es1: Seq<(Seq<u8>, Seq<u8>)>,
    es2: Seq<(Seq<u8>, Seq<u8>)>,
    m: Map<Seq<u8>, Seq<u8>>,
)
    requires
        entries_match_map(es1, m, KeyBound::Unbounded, KeyBound::Unbounded),
        entries_match_map(es2, m, KeyBound::Unbounded, KeyBound::Unbounded),
    ensures
        es1 == es2,
    decreases es1.len(),
{
    if es1.len() == 0 {
        if es2.len() > 0 {
            assert(m.dom().contains(es2[0].0));
            let i = choose|i: int| 0 <= i < es1.len() && (#[trigger] es1[i]).0 == es2[0].0;
        }
        assert(es1 =~= es2);
    } else {
        assert(m.dom().contains(es1[0].0));
        assert(m.dom().contains(es2[0].0));
        let k1 = es1[0].0;
        let k2 = es2[0].0;
        let j = choose|j: int| 0 <= j < es2.len() && (#[trigger] es2[j]).0 == k1;
        let i = choose|i: int| 0 <= i < es1.len() && (#[trigger] es1[i]).0 == k2;
        if k1 != k2 {
            assert(j > 0 && i > 0);
            assert(lex_lt(k2, es2[j].0));
            assert(lex_lt(k1, es1[i].0));
            crate::keys::lemma_lex_trans(k1, k2, k1);
            crate::keys::lemma_lex_asym(k1, k1);
        }
        assert(es1[0] == es2[0]);
        let m2 = m.remove(k1);
        lemma_matched_tail(es1, m);
        lemma_matched_tail(es2, m);
        lemma_matched_unique(es1.drop_first(), es2.drop_first(), m2);
        assert(es1 =~= es2) by {
            assert forall|x: int| 0 <= x < es1.len() implies es1[x] == es2[x] by {
                if x > 0 {
                    assert(es1.drop_first()[x - 1] == es2.drop_first()[x - 1]);
                }
            }
        }
    }
}

/// Dropping a sorted run's first entry mirrors the map without its key.
proof fn lemma_matched_tail(es: Seq<(Seq<u8>, Seq<u8>)>, m: Map<Seq<u8>, Seq<u8>>)
    requires
        entries_match_map(es, m, KeyBound::Unbounded, KeyBound::Unbounded),
        es.len() > 0,
    ensures
        entries_match_map(
            es.drop_first(),
            m.remove(es[0].0),
            KeyBound::Unbounded,
            KeyBound::Unbounded,
        ),
{
    let k0 = es[0].0;
    let m2 = m.remove(k0);
    let tl = es.drop_first();
    assert forall|i: int, j: int|
        0 <= i < j < tl.len() implies lex_lt(#[trigger] tl[i].0, #[trigger] tl[j].0) by {
        assert(tl[i] == es[i + 1] && tl[j] == es[j + 1]);
    }
    assert forall|i: int|
        0 <= i < tl.len() implies m2.dom().contains(#[trigger] tl[i].0) && tl[i].1 == m2[tl[i].0]
            && in_bounds(KeyBound::Unbounded, KeyBound::Unbounded, tl[i].0) by {
        assert(tl[i] == es[i + 1]);
        assert(lex_lt(es[0].0, es[i + 1].0));
        crate::keys::lemma_lex_asym(es[0].0, es[i + 1].0);
    }
    assert forall|k: Seq<u8>|
        m2.dom().contains(k) && in_bounds(KeyBound::Unbounded, KeyBound::Unbounded, k) implies
        exists|i: int| 0 <= i < tl.len() && (#[trigger] tl[i]).0 == k by {
        let i = choose|i: int| 0 <= i < es.len() && (#[trigger] es[i]).0 == k;
        assert(i > 0);
        assert(tl[i - 1].0 == k);
    }
}

} // verus!
