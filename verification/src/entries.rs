//! Model helpers shared by the table and engine layers: sorted entry
//! sequences, the map they denote, and concatenation of block entry runs.

use vstd::prelude::*;

use crate::keys::{lemma_lex_asym, lemma_lex_le_lt_trans, lemma_lex_lt_le_trans, lex_le, lex_lt};

verus! {

/// No two entries share a key.
pub open spec fn distinct_keys(es: Seq<(Seq<u8>, Seq<u8>)>) -> bool {
    forall|i: int, j: int| 0 <= i < j < es.len() ==> (#[trigger] es[i]).0 != (#[trigger] es[j]).0
}

/// Keys strictly ascend.
pub open spec fn strictly_sorted(es: Seq<(Seq<u8>, Seq<u8>)>) -> bool {
    forall|i: int, j: int| 0 <= i < j < es.len() ==> lex_lt(#[trigger] es[i].0, #[trigger] es[j].0)
}

/// Strictly ascending keys are distinct.
pub proof fn lemma_sorted_distinct(es: Seq<(Seq<u8>, Seq<u8>)>)
    requires
        strictly_sorted(es),
    ensures
        distinct_keys(es),
{
    assert forall|i: int, j: int|
        0 <= i < j < es.len() implies (#[trigger] es[i]).0 != (#[trigger] es[j]).0 by {
        lemma_lex_asym(es[i].0, es[j].0);
    }
}

/// The map an entry sequence denotes; later entries win on duplicate keys.
pub open spec fn map_of_entries(es: Seq<(Seq<u8>, Seq<u8>)>) -> Map<Seq<u8>, Seq<u8>>
    decreases es.len(),
{
    if es.len() == 0 {
        Map::empty()
    } else {
        map_of_entries(es.drop_last()).insert(es.last().0, es.last().1)
    }
}

/// For entries with distinct keys, the denoted map holds exactly the keys
/// of the sequence, each bound to its entry's value.
pub proof fn lemma_map_of_entries(es: Seq<(Seq<u8>, Seq<u8>)>)
    requires
        distinct_keys(es),
    ensures
        map_of_entries(es).dom().finite(),
        forall|k: Seq<u8>|
            #[trigger] map_of_entries(es).dom().contains(k) <==> exists|i: int|
                0 <= i < es.len() && (#[trigger] es[i]).0 == k,
        forall|i: int|
            0 <= i < es.len() ==> map_of_entries(es).dom().contains((#[trigger] es[i]).0)
                && map_of_entries(es)[es[i].0] == es[i].1,
    decreases es.len(),
{
    if es.len() > 0 {
        let dl = es.drop_last();
        lemma_map_of_entries(dl);
        assert forall|i: int|
            0 <= i < es.len() implies map_of_entries(es).dom().contains((#[trigger] es[i]).0)
                && map_of_entries(es)[es[i].0] == es[i].1 by {
            if i < es.len() - 1 {
                assert(dl[i] == es[i]);
                assert(es[i].0 != es.last().0);
            }
        }
        assert forall|k: Seq<u8>| #[trigger] map_of_entries(es).dom().contains(k) implies exists|
            i: int,
        | 0 <= i < es.len() && (#[trigger] es[i]).0 == k by {
            if k == es.last().0 {
                assert(es[es.len() - 1].0 == k);
            } else {
                let i = choose|i: int| 0 <= i < dl.len() && (#[trigger] dl[i]).0 == k;
                assert(es[i].0 == k);
            }
        }
    }
}

/// Concatenate runs of entries.
pub open spec fn cat_blocks(bs: Seq<Seq<(Seq<u8>, Seq<u8>)>>) -> Seq<(Seq<u8>, Seq<u8>)>
    decreases bs.len(),
{
    if bs.len() == 0 {
        Seq::empty()
    } else {
        bs[0] + cat_blocks(bs.drop_first())
    }
}

/// Appending a run appends its entries.
pub proof fn lemma_cat_blocks_push(bs: Seq<Seq<(Seq<u8>, Seq<u8>)>>, b: Seq<(Seq<u8>, Seq<u8>)>)
    ensures
        cat_blocks(bs.push(b)) == cat_blocks(bs) + b,
    decreases bs.len(),
{
    if bs.len() == 0 {
        assert(bs.push(b)[0] == b);
        assert(bs.push(b).drop_first() =~= bs);
        assert(cat_blocks(bs.push(b)) == b + cat_blocks(bs));
        assert(b + cat_blocks(bs) =~= cat_blocks(bs) + b);
    } else {
        assert(bs.push(b)[0] == bs[0]);
        assert(bs.push(b).drop_first() =~= bs.drop_first().push(b));
        lemma_cat_blocks_push(bs.drop_first(), b);
        assert(cat_blocks(bs.push(b)) == bs[0] + (cat_blocks(bs.drop_first()) + b));
        assert(bs[0] + (cat_blocks(bs.drop_first()) + b) =~= cat_blocks(bs) + b);
    }
}

/// If every run is sorted, every run is non-empty, and each run's last key
/// lies below the next run's first key, the concatenation is sorted.
pub proof fn lemma_cat_blocks_sorted(bs: Seq<Seq<(Seq<u8>, Seq<u8>)>>)
    requires
        forall|i: int| 0 <= i < bs.len() ==> strictly_sorted(#[trigger] bs[i]),
        forall|i: int| 0 <= i < bs.len() ==> (#[trigger] bs[i]).len() > 0,
        forall|i: int|
            0 <= i < bs.len() - 1 ==> lex_lt((#[trigger] bs[i]).last().0, bs[i + 1][0].0),
    ensures
        strictly_sorted(cat_blocks(bs)),
        cat_blocks(bs).len() > 0 ==> cat_blocks(bs)[0] == bs[0][0],
        cat_blocks(bs).len() > 0 ==> cat_blocks(bs).last() == bs[bs.len() - 1].last(),
        bs.len() > 0 ==> cat_blocks(bs).len() > 0,
    decreases bs.len(),
{
    if bs.len() > 0 {
        let rest = bs.drop_first();
        assert forall|i: int| 0 <= i < rest.len() - 1 implies lex_lt(
            (#[trigger] rest[i]).last().0,
            rest[i + 1][0].0,
        ) by {
            assert(rest[i] == bs[i + 1] && rest[i + 1] == bs[i + 2]);
        }
        lemma_cat_blocks_sorted(rest);
        let head = bs[0];
        let tail = cat_blocks(rest);
        let es = cat_blocks(bs);
        assert(es == head + tail);
        if bs.len() > 1 {
            assert(lex_lt(head.last().0, bs[1][0].0));
            assert(tail[0] == bs[1][0]);
        }
        assert forall|i: int, j: int|
            0 <= i < j < es.len() implies lex_lt(#[trigger] es[i].0, #[trigger] es[j].0) by {
            if i < head.len() && j < head.len() {
                assert(es[i] == head[i] && es[j] == head[j]);
            } else if i < head.len() && j >= head.len() {
                assert(es[i] == head[i] && es[j] == tail[j - head.len()]);
                assert(head.last() == head[head.len() - 1]);
                assert(lex_le(head[i].0, head.last().0));
                lemma_lex_le_lt_trans(head[i].0, head.last().0, tail[0].0);
                assert(lex_le(tail[0].0, tail[j - head.len()].0));
                lemma_lex_lt_le_trans(head[i].0, tail[0].0, tail[j - head.len()].0);
            } else {
                assert(es[i] == tail[i - head.len()] && es[j] == tail[j - head.len()]);
            }
        }
        assert(es.last() == tail.last() || bs.len() == 1);
        if bs.len() == 1 {
            assert(es =~= head);
        }
    }
}


/// In a sorted non-empty run, every key lies at or below the last key.
pub proof fn lemma_sorted_le_last(es: Seq<(Seq<u8>, Seq<u8>)>)
    requires
        strictly_sorted(es),
        es.len() > 0,
    ensures
        forall|u: int| 0 <= u < es.len() ==> lex_le((#[trigger] es[u]).0, es.last().0),
{
    assert forall|u: int| 0 <= u < es.len() implies lex_le((#[trigger] es[u]).0, es.last().0) by {
        if u < es.len() - 1 {
            assert(lex_lt(es[u].0, es[es.len() - 1].0));
        }
    }
}

/// What the concatenation holds is exactly what some run holds.
pub proof fn lemma_cat_blocks_membership(bs: Seq<Seq<(Seq<u8>, Seq<u8>)>>)
    ensures
        forall|i: int, j: int|
            0 <= i < bs.len() && 0 <= j < (#[trigger] bs[i]).len() ==> cat_blocks(bs).contains(
                #[trigger] bs[i][j],
            ),
        forall|e: (Seq<u8>, Seq<u8>)|
            #[trigger] cat_blocks(bs).contains(e) ==> exists|i: int|
                0 <= i < bs.len() && (#[trigger] bs[i]).contains(e),
    decreases bs.len(),
{
    if bs.len() > 0 {
        let rest = bs.drop_first();
        let head = bs[0];
        let es = cat_blocks(bs);
        lemma_cat_blocks_membership(rest);
        assert forall|i: int, j: int|
            0 <= i < bs.len() && 0 <= j < (#[trigger] bs[i]).len() implies es.contains(
            #[trigger] bs[i][j],
        ) by {
            if i == 0 {
                assert(es[j] == bs[0][j]);
            } else {
                assert(rest[i - 1] == bs[i]);
                assert(cat_blocks(rest).contains(bs[i][j]));
                let g = choose|g: int|
                    0 <= g < cat_blocks(rest).len() && cat_blocks(rest)[g] == bs[i][j];
                assert(es[head.len() + g] == bs[i][j]);
            }
        }
        assert forall|e: (Seq<u8>, Seq<u8>)| #[trigger] es.contains(e) implies exists|i: int|
            0 <= i < bs.len() && (#[trigger] bs[i]).contains(e) by {
            let g = choose|g: int| 0 <= g < es.len() && es[g] == e;
            if g < head.len() {
                assert(head[g] == e);
                assert(bs[0].contains(e));
            } else {
                assert(cat_blocks(rest)[g - head.len()] == e);
                assert(cat_blocks(rest).contains(e));
                let i = choose|i: int| 0 <= i < rest.len() && (#[trigger] rest[i]).contains(e);
                assert(bs[i + 1].contains(e));
            }
        }
    }
}

} // verus!
