//! Weighted colors and their ranking by weight.

use crate::color::Color;
use vstd::prelude::*;

verus! {

/// A color with the number of pixels that stand behind it: a histogram entry
/// with its count, a group with its accumulated weight, a centroid with the
/// size of its cluster.
#[derive(Clone, Copy, Debug, PartialEq, Eq, Structural)]
pub struct PaletteEntry {
    pub color: Color,
    pub weight: u64,
}

/// Sum of the weights of `entries`.
pub open spec fn total_weight(entries: Seq<PaletteEntry>) -> nat
    decreases entries.len(),
{
    if entries.len() == 0 {
        0
    } else {
        total_weight(entries.drop_last()) + entries.last().weight as nat
    }
}

/// Position at which `e` enters a ranking: behind every entry that outweighs
/// it, in front of the first that does not.
pub open spec fn rank_slot(ranking: Seq<PaletteEntry>, e: PaletteEntry) -> int
    decreases ranking.len(),
{
    if ranking.len() == 0 || ranking[0].weight <= e.weight {
        0
    } else {
        1 + rank_slot(ranking.drop_first(), e)
    }
}

/// `entries` by descending weight. Among entries of equal weight the one that
/// stood later in `entries` comes first.
pub open spec fn ranked(entries: Seq<PaletteEntry>) -> Seq<PaletteEntry>
    decreases entries.len(),
{
    if entries.len() == 0 {
        Seq::empty()
    } else {
        let rest = ranked(entries.drop_last());
        rest.insert(rank_slot(rest, entries.last()), entries.last())
    }
}

/// The first `n` entries of `palette`, or all of them where it holds fewer.
pub open spec fn first_entries(palette: Seq<PaletteEntry>, n: nat) -> Seq<PaletteEntry> {
    palette.take(
        if n <= palette.len() {
            n as int
        } else {
            palette.len() as int
        },
    )
}

/// No entry is outweighed by one that stands behind it.
pub open spec fn is_descending(entries: Seq<PaletteEntry>) -> bool {
    forall|i: int, j: int| 0 <= i <= j < entries.len() ==> entries[i].weight >= entries[j].weight
}

/// `rank_slot` is the one position that has only heavier entries in front of
/// it and none at it.
pub proof fn lemma_rank_slot(ranking: Seq<PaletteEntry>, e: PaletteEntry)
    ensures
        0 <= rank_slot(ranking, e) <= ranking.len(),
        forall|j: int| 0 <= j < rank_slot(ranking, e) ==> ranking[j].weight > e.weight,
        rank_slot(ranking, e) < ranking.len() ==> ranking[rank_slot(ranking, e)].weight
            <= e.weight,
    decreases ranking.len(),
{
    if ranking.len() == 0 || ranking[0].weight <= e.weight {
    } else {
        let tail = ranking.drop_first();
        lemma_rank_slot(tail, e);
        assert forall|j: int| 0 <= j < rank_slot(ranking, e) implies ranking[j].weight
            > e.weight by {
            if j > 0 {
                assert(ranking[j] == tail[j - 1]);
            }
        }
        if rank_slot(ranking, e) < ranking.len() {
            assert(ranking[rank_slot(ranking, e)] == tail[rank_slot(tail, e)]);
        }
    }
}

/// A position with only heavier entries in front of it and none at it is the
/// `rank_slot`.
pub proof fn lemma_rank_slot_unique(ranking: Seq<PaletteEntry>, e: PaletteEntry, slot: int)
    requires
        0 <= slot <= ranking.len(),
        forall|j: int| 0 <= j < slot ==> ranking[j].weight > e.weight,
        slot < ranking.len() ==> ranking[slot].weight <= e.weight,
    ensures
        slot == rank_slot(ranking, e),
{
    lemma_rank_slot(ranking, e);
    let s = rank_slot(ranking, e);
    if s < slot {
        assert(ranking[s].weight > e.weight);
    } else if slot < s {
        assert(ranking[slot].weight > e.weight);
    }
}

/// A ranking holds what was ranked, each entry as often as it was given, in
/// descending order of weight.
pub proof fn lemma_ranked(entries: Seq<PaletteEntry>)
    ensures
        ranked(entries).len() == entries.len(),
        ranked(entries).to_multiset() == entries.to_multiset(),
        is_descending(ranked(entries)),
    decreases entries.len(),
{
    if entries.len() == 0 {
        assert(ranked(entries) =~= entries);
    } else {
        let init = entries.drop_last();
        let e = entries.last();
        let rest = ranked(init);
        let slot = rank_slot(rest, e);
        lemma_ranked(init);
        lemma_rank_slot(rest, e);
        let out = rest.insert(slot, e);
        assert(out.to_multiset() == entries.to_multiset()) by {
            vstd::seq_lib::to_multiset_insert(rest, slot, e);
            vstd::seq_lib::to_multiset_build(init, e);
            assert(init.push(e) =~= entries);
        }
        assert forall|i: int, j: int| 0 <= i <= j < out.len() implies out[i].weight
            >= out[j].weight by {
            let wi = if i < slot {
                rest[i]
            } else if i == slot {
                e
            } else {
                rest[i - 1]
            };
            let wj = if j < slot {
                rest[j]
            } else if j == slot {
                e
            } else {
                rest[j - 1]
            };
            assert(out[i] == wi);
            assert(out[j] == wj);
            if i < slot && j > slot {
                assert(rest[i].weight >= rest[j - 1].weight);
            } else if i == slot && j > slot {
                assert(rest[slot].weight >= rest[j - 1].weight);
            }
        }
    }
}

/// Ranking neither adds nor loses weight.
pub proof fn lemma_ranked_total_weight(entries: Seq<PaletteEntry>)
    ensures
        total_weight(ranked(entries)) == total_weight(entries),
    decreases entries.len(),
{
    if entries.len() > 0 {
        let init = entries.drop_last();
        let e = entries.last();
        let rest = ranked(init);
        lemma_ranked_total_weight(init);
        lemma_rank_slot(rest, e);
        lemma_total_weight_insert(rest, rank_slot(rest, e), e);
    }
}

/// An entry inserted anywhere adds its weight to the total.
pub proof fn lemma_total_weight_insert(entries: Seq<PaletteEntry>, at: int, e: PaletteEntry)
    requires
        0 <= at <= entries.len(),
    ensures
        total_weight(entries.insert(at, e)) == total_weight(entries) + e.weight,
    decreases entries.len(),
{
    let out = entries.insert(at, e);
    if at == entries.len() {
        assert(out.drop_last() =~= entries);
    } else {
        lemma_total_weight_insert(entries.drop_last(), at, e);
        assert(out.drop_last() =~= entries.drop_last().insert(at, e));
        assert(out.last() == entries.last());
    }
}

/// Ranks `entries` by descending weight; of two entries of equal weight the
/// later one comes first.
pub fn rank(entries: &Vec<PaletteEntry>) -> (out: Vec<PaletteEntry>)
    ensures
        out@ == ranked(entries@),
        out@.len() == entries@.len(),
        out@.to_multiset() == entries@.to_multiset(),
        is_descending(out@),
{
    let mut out: Vec<PaletteEntry> = Vec::new();
    let mut i: usize = 0;
    while i < entries.len()
        invariant
            i <= entries.len(),
            out@ == ranked(entries@.take(i as int)),
            out@.len() == i,
        decreases entries.len() - i,
    {
        let e = entries[i];
        let mut slot: usize = 0;
        while slot < out.len() && out[slot].weight > e.weight
            invariant
                slot <= out.len(),
                forall|j: int| 0 <= j < slot ==> out[j].weight > e.weight,
            decreases out.len() - slot,
        {
            slot = slot + 1;
        }
        proof {
            lemma_rank_slot_unique(out@, e, slot as int);
            assert(entries@.take(i + 1).drop_last() =~= entries@.take(i as int));
        }
        out.insert(slot, e);
        i = i + 1;
    }
    proof {
        assert(entries@.take(i as int) =~= entries@);
        lemma_ranked(entries@);
    }
    out
}

/// The first `n` entries of a palette, or all of them where it holds fewer.
pub fn top(entries: &Vec<PaletteEntry>, n: usize) -> (out: Vec<PaletteEntry>)
    ensures
        out@ == first_entries(entries@, n as nat),
{
    let mut out: Vec<PaletteEntry> = Vec::new();
    let mut i: usize = 0;
    while i < entries.len() && i < n
        invariant
            i <= entries.len(),
            i <= n,
            out@ == entries@.take(i as int),
        decreases entries.len() - i,
    {
        out.push(entries[i]);
        proof {
            assert(entries@.take(i as int).push(entries@[i as int]) =~= entries@.take(i + 1));
        }
        i = i + 1;
    }
    out
}

} // verus!
