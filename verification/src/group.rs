//! The greedy grouper: histogram colors are taken by descending count, and
//! each joins the first group whose representative is within the threshold,
//! or founds a group of its own.

use crate::color::{color_distance, dist, lemma_distance_symmetric, Color};
use crate::histogram::{is_histogram, lemma_histogram_unique};
use crate::palette::{
    first_entries, is_descending, lemma_rank_slot, lemma_ranked, rank, rank_slot, ranked, top,
    total_weight, PaletteEntry,
};
use vstd::prelude::*;

verus! {

/// Index, from `from` on, of the first entry of `palette` whose color is
/// nearer to `c` than `d`; the length of `palette` where there is none.
pub open spec fn first_match_from(palette: Seq<PaletteEntry>, c: Color, d: nat, from: int) -> int
    decreases palette.len() - from,
{
    if from < 0 || from >= palette.len() {
        palette.len() as int
    } else if color_distance(c, palette[from].color) < d {
        from
    } else {
        first_match_from(palette, c, d, from + 1)
    }
}

/// Index of the first entry of `palette` whose color is nearer to `c` than
/// `d`; the length of `palette` where there is none.
pub open spec fn first_match(palette: Seq<PaletteEntry>, c: Color, d: nat) -> int {
    first_match_from(palette, c, d, 0)
}

/// The groups after `e` was taken in: its weight goes to the first group
/// within the threshold, and where there is none it founds a group.
pub open spec fn absorb(groups: Seq<PaletteEntry>, e: PaletteEntry, d: nat) -> Seq<PaletteEntry> {
    let at = first_match(groups, e.color, d);
    if at < groups.len() {
        groups.update(
            at,
            PaletteEntry { color: groups[at].color, weight: (groups[at].weight + e.weight) as u64 },
        )
    } else {
        groups.push(e)
    }
}

/// The groups after the entries of `hist` from index `from` on were taken
/// in, the last entry first.
pub open spec fn grouped_from(hist: Seq<PaletteEntry>, d: nat, from: int) -> Seq<PaletteEntry>
    decreases hist.len() - from,
{
    if from < 0 || from >= hist.len() {
        Seq::empty()
    } else {
        absorb(grouped_from(hist, d, from + 1), hist[from], d)
    }
}

/// The groups of a histogram that is ordered by ascending count, in the order
/// in which they were founded.
pub open spec fn grouped(hist: Seq<PaletteEntry>, d: nat) -> Seq<PaletteEntry> {
    grouped_from(hist, d, 0)
}

/// No two entries of `palette` have colors nearer to one another than `d`.
pub open spec fn is_separated(palette: Seq<PaletteEntry>, d: nat) -> bool {
    forall|i: int, j: int|
        0 <= i < palette.len() && 0 <= j < palette.len() && i != j ==> color_distance(
            (#[trigger] palette[i]).color,
            (#[trigger] palette[j]).color,
        ) >= d
}

/// The first match is the first index whose color is within the threshold.
pub proof fn lemma_first_match(palette: Seq<PaletteEntry>, c: Color, d: nat, from: int)
    requires
        0 <= from <= palette.len(),
    ensures
        from <= first_match_from(palette, c, d, from) <= palette.len(),
        forall|j: int|
            from <= j < first_match_from(palette, c, d, from) ==> color_distance(
                c,
                (#[trigger] palette[j]).color,
            ) >= d,
        first_match_from(palette, c, d, from) < palette.len() ==> color_distance(
            c,
            palette[first_match_from(palette, c, d, from)].color,
        ) < d,
    decreases palette.len() - from,
{
    if from < palette.len() && !(color_distance(c, palette[from].color) < d) {
        lemma_first_match(palette, c, d, from + 1);
    }
}

/// An index with a color within the threshold and none in front of it is the
/// first match.
pub proof fn lemma_first_match_unique(palette: Seq<PaletteEntry>, c: Color, d: nat, at: int)
    requires
        0 <= at <= palette.len(),
        forall|j: int| 0 <= j < at ==> color_distance(c, (#[trigger] palette[j]).color) >= d,
        at < palette.len() ==> color_distance(c, palette[at].color) < d,
    ensures
        at == first_match(palette, c, d),
{
    lemma_first_match(palette, c, d, 0);
    let m = first_match(palette, c, d);
    if m < at {
        assert(color_distance(c, palette[m].color) >= d);
    } else if at < m {
        assert(color_distance(c, palette[at].color) >= d);
    }
}

/// An entry weighs no more than all entries together.
pub proof fn lemma_weight_within_total(entries: Seq<PaletteEntry>, at: int)
    requires
        0 <= at < entries.len(),
    ensures
        entries[at].weight <= total_weight(entries),
    decreases entries.len(),
{
    if at < entries.len() - 1 {
        lemma_weight_within_total(entries.drop_last(), at);
    }
}

/// A changed entry changes the total by the change of its weight.
pub proof fn lemma_total_weight_update(entries: Seq<PaletteEntry>, at: int, e: PaletteEntry)
    requires
        0 <= at < entries.len(),
    ensures
        total_weight(entries.update(at, e)) == total_weight(entries) - entries[at].weight
            + e.weight,
    decreases entries.len(),
{
    let out = entries.update(at, e);
    if at == entries.len() - 1 {
        assert(out.drop_last() =~= entries.drop_last());
    } else {
        lemma_total_weight_update(entries.drop_last(), at, e);
        assert(out.drop_last() =~= entries.drop_last().update(at, e));
    }
}

/// The entries from `from` on weigh no more than all entries together.
pub open spec fn weight_from(hist: Seq<PaletteEntry>, from: int) -> nat
    decreases hist.len() - from,
{
    if from < 0 || from >= hist.len() {
        0
    } else {
        weight_from(hist, from + 1) + hist[from].weight as nat
    }
}

/// The weight of the entries from `from` on and that of those in front of
/// them make up the total weight.
pub proof fn lemma_weight_from(hist: Seq<PaletteEntry>, from: int)
    requires
        0 <= from <= hist.len(),
    ensures
        weight_from(hist, from) + total_weight(hist.take(from)) == total_weight(hist),
    decreases hist.len() - from,
{
    if from < hist.len() {
        lemma_weight_from(hist, from + 1);
        assert(hist.take(from + 1).drop_last() =~= hist.take(from));
    } else {
        assert(hist.take(from) =~= hist);
    }
}

/// Taking an entry in adds its weight to the groups, keeps the colors of the
/// groups that there were, and keeps the groups apart.
pub proof fn lemma_absorb(groups: Seq<PaletteEntry>, e: PaletteEntry, d: nat)
    requires
        total_weight(groups) + e.weight <= u64::MAX,
    ensures
        total_weight(absorb(groups, e, d)) == total_weight(groups) + e.weight,
        groups.len() <= absorb(groups, e, d).len() <= groups.len() + 1,
        forall|i: int| 0 <= i < groups.len() ==> absorb(groups, e, d)[i].color == groups[i].color,
        is_separated(groups, d) ==> is_separated(absorb(groups, e, d), d),
{
    let at = first_match(groups, e.color, d);
    lemma_first_match(groups, e.color, d, 0);
    let out = absorb(groups, e, d);
    if at < groups.len() {
        lemma_weight_within_total(groups, at);
        lemma_total_weight_update(groups, at, out[at]);
    } else {
        assert(out.drop_last() =~= groups);
        if is_separated(groups, d) {
            assert forall|i: int, j: int|
                0 <= i < out.len() && 0 <= j < out.len() && i != j implies color_distance(
                (#[trigger] out[i]).color,
                (#[trigger] out[j]).color,
            ) >= d by {
                if j == groups.len() {
                    lemma_distance_symmetric(e.color, groups[i].color);
                    assert(color_distance(e.color, groups[i].color) >= d);
                } else if i == groups.len() {
                    assert(color_distance(e.color, groups[j].color) >= d);
                } else {
                    assert(color_distance(groups[i].color, groups[j].color) >= d);
                }
            }
        }
    }
}

/// The groups of the entries from `from` on weigh what these entries weigh,
/// are no more than these entries, and are apart by the threshold or more.
pub proof fn lemma_grouped_from(hist: Seq<PaletteEntry>, d: nat, from: int)
    requires
        0 <= from <= hist.len(),
        total_weight(hist) <= u64::MAX,
    ensures
        total_weight(grouped_from(hist, d, from)) == weight_from(hist, from),
        grouped_from(hist, d, from).len() <= hist.len() - from,
        is_separated(grouped_from(hist, d, from), d),
    decreases hist.len() - from,
{
    lemma_weight_from(hist, from);
    if from < hist.len() {
        lemma_grouped_from(hist, d, from + 1);
        lemma_weight_from(hist, from + 1);
        lemma_absorb(grouped_from(hist, d, from + 1), hist[from], d);
    }
}

/// Grouping loses no pixel and counts none twice: the groups weigh what the
/// histogram weighs.
pub proof fn lemma_grouping_conserves_weight(hist: Seq<PaletteEntry>, d: nat)
    requires
        total_weight(hist) <= u64::MAX,
    ensures
        total_weight(grouped(hist, d)) == total_weight(hist),
{
    lemma_grouped_from(hist, d, 0);
    lemma_weight_from(hist, 0);
    assert(hist.take(0) =~= Seq::<PaletteEntry>::empty());
}

/// The representatives of the groups are apart by the threshold or more.
pub proof fn lemma_groups_are_apart(hist: Seq<PaletteEntry>, d: nat)
    requires
        total_weight(hist) <= u64::MAX,
    ensures
        is_separated(grouped(hist, d), d),
{
    lemma_grouped_from(hist, d, 0);
}

/// Without a threshold the groups of the entries from `from` on are these
/// entries, the last first.
pub proof fn lemma_grouped_from_without_threshold(hist: Seq<PaletteEntry>, from: int)
    requires
        0 <= from <= hist.len(),
    ensures
        grouped_from(hist, 0, from) == hist.skip(from).reverse(),
    decreases hist.len() - from,
{
    if from < hist.len() {
        lemma_grouped_from_without_threshold(hist, from + 1);
        let rest = grouped_from(hist, 0, from + 1);
        lemma_first_match(rest, hist[from].color, 0, 0);
        assert(rest.push(hist[from]) =~= hist.skip(from).reverse());
    } else {
        assert(grouped_from(hist, 0, from) =~= hist.skip(from).reverse());
    }
}

/// With a threshold of zero nothing is merged: the groups are the entries of
/// the histogram, the most frequent first.
pub proof fn lemma_grouping_without_threshold(hist: Seq<PaletteEntry>)
    ensures
        grouped(hist, 0) == hist.reverse(),
{
    lemma_grouped_from_without_threshold(hist, 0);
    assert(hist.skip(0) =~= hist);
}

/// The groups of an image are fixed by its pixels and the threshold: its
/// histogram, with its order, is one, and so are the groups made of it,
/// their representatives and their weights, and the ranking of the groups.
pub proof fn lemma_grouping_deterministic(
    pixels: Seq<Color>,
    first_hist: Seq<PaletteEntry>,
    second_hist: Seq<PaletteEntry>,
    d: nat,
)
    requires
        is_histogram(pixels, first_hist),
        is_histogram(pixels, second_hist),
    ensures
        grouped(first_hist, d) == grouped(second_hist, d),
        ranked(grouped(first_hist, d)) == ranked(grouped(second_hist, d)),
{
    lemma_histogram_unique(pixels, first_hist, second_hist);
}

/// An entry that is apart from all entries of a palette can be inserted
/// anywhere without bringing two entries nearer than the threshold.
pub proof fn lemma_insert_separated(palette: Seq<PaletteEntry>, at: int, e: PaletteEntry, d: nat)
    requires
        0 <= at <= palette.len(),
        is_separated(palette, d),
        forall|k: int|
            0 <= k < palette.len() ==> color_distance((#[trigger] palette[k]).color, e.color) >= d,
    ensures
        is_separated(palette.insert(at, e), d),
{
    let out = palette.insert(at, e);
    assert forall|i: int, j: int|
        0 <= i < out.len() && 0 <= j < out.len() && i != j implies color_distance(
        (#[trigger] out[i]).color,
        (#[trigger] out[j]).color,
    ) >= d by {
        let a = if i < at {
            i
        } else {
            i - 1
        };
        let b = if j < at {
            j
        } else {
            j - 1
        };
        if i == at {
            assert(out[j] == palette[b]);
            lemma_distance_symmetric(e.color, palette[b].color);
        } else if j == at {
            assert(out[i] == palette[a]);
        } else {
            assert(out[i] == palette[a]);
            assert(out[j] == palette[b]);
        }
    }
}

/// Every entry of a ranking is one of the entries that were ranked.
pub proof fn lemma_ranked_came_from(entries: Seq<PaletteEntry>, k: int)
    requires
        0 <= k < ranked(entries).len(),
    ensures
        entries.contains(ranked(entries)[k]),
{
    let e = ranked(entries)[k];
    lemma_ranked(entries);
    assert(ranked(entries).contains(e));
    vstd::seq_lib::to_multiset_contains(ranked(entries), e);
    vstd::seq_lib::to_multiset_contains(entries, e);
}

/// Ranking keeps entries apart that were apart.
pub proof fn lemma_ranked_separated(entries: Seq<PaletteEntry>, d: nat)
    requires
        is_separated(entries, d),
    ensures
        is_separated(ranked(entries), d),
    decreases entries.len(),
{
    if entries.len() > 0 {
        let init = entries.drop_last();
        let e = entries.last();
        assert(is_separated(init, d)) by {
            assert forall|i: int, j: int|
                0 <= i < init.len() && 0 <= j < init.len() && i != j implies color_distance(
                (#[trigger] init[i]).color,
                (#[trigger] init[j]).color,
            ) >= d by {
                assert(init[i] == entries[i]);
                assert(init[j] == entries[j]);
            }
        }
        lemma_ranked_separated(init, d);
        let rest = ranked(init);
        lemma_rank_slot(rest, e);
        assert forall|k: int| 0 <= k < rest.len() implies color_distance(
            (#[trigger] rest[k]).color,
            e.color,
        ) >= d by {
            lemma_ranked_came_from(init, k);
            let i = choose|i: int| 0 <= i < init.len() && init[i] == rest[k];
            assert(entries[i] == rest[k]);
            assert(entries[entries.len() - 1] == e);
        }
        lemma_insert_separated(rest, rank_slot(rest, e), e, d);
    }
}

/// The first entries of a palette are apart where all its entries are.
pub proof fn lemma_first_entries_separated(palette: Seq<PaletteEntry>, d: nat, n: nat)
    requires
        is_separated(palette, d),
    ensures
        is_separated(first_entries(palette, n), d),
{
    let kept = first_entries(palette, n);
    assert forall|i: int, j: int|
        0 <= i < kept.len() && 0 <= j < kept.len() && i != j implies color_distance(
        (#[trigger] kept[i]).color,
        (#[trigger] kept[j]).color,
    ) >= d by {
        assert(kept[i] == palette[i]);
        assert(kept[j] == palette[j]);
    }
}

/// Index of the first entry of `palette` whose color is nearer to `c` than
/// `d`, if there is one.
pub fn find_match(palette: &Vec<PaletteEntry>, c: &Color, d: u64) -> (found: Option<usize>)
    ensures
        found is Some <==> first_match(palette@, *c, d as nat) < palette@.len(),
        found matches Some(at) ==> at == first_match(palette@, *c, d as nat),
{
    let mut at: usize = 0;
    while at < palette.len()
        invariant
            at <= palette@.len(),
            forall|j: int|
                0 <= j < at ==> color_distance(*c, (#[trigger] palette@[j]).color) >= d,
        decreases palette@.len() - at,
    {
        if dist(c, &palette[at].color) < d {
            proof {
                lemma_first_match_unique(palette@, *c, d as nat, at as int);
            }
            return Some(at);
        }
        at = at + 1;
    }
    proof {
        lemma_first_match_unique(palette@, *c, d as nat, at as int);
    }
    None
}

/// Groups the colors of a histogram that is ordered by ascending count. The
/// entries are taken from the last to the first; each adds its count to the
/// first group whose representative is nearer to its color than `d`, and
/// founds a group with its own color where there is none. The groups come
/// back in the order in which they were founded.
pub fn group_colors(hist: &Vec<PaletteEntry>, d: u64) -> (groups: Vec<PaletteEntry>)
    requires
        total_weight(hist@) <= u64::MAX,
    ensures
        groups@ == grouped(hist@, d as nat),
        total_weight(groups@) == total_weight(hist@),
        is_separated(groups@, d as nat),
        d == 0 ==> groups@ == hist@.reverse(),
{
    let mut groups: Vec<PaletteEntry> = Vec::new();
    let mut left: usize = hist.len();
    while left > 0
        invariant
            left <= hist@.len(),
            total_weight(hist@) <= u64::MAX,
            groups@ == grouped_from(hist@, d as nat, left as int),
        decreases left,
    {
        left = left - 1;
        let e: PaletteEntry = hist[left];
        proof {
            lemma_grouped_from(hist@, d as nat, left + 1);
            lemma_weight_from(hist@, left + 1);
            lemma_weight_from(hist@, left as int);
            lemma_absorb(groups@, e, d as nat);
            lemma_first_match(groups@, e.color, d as nat, 0);
        }
        match find_match(&groups, &e.color, d) {
            Some(at) => {
                let g: PaletteEntry = groups[at];
                proof {
                    lemma_weight_within_total(groups@, at as int);
                }
                groups.set(at, PaletteEntry { color: g.color, weight: g.weight + e.weight });
            },
            None => {
                groups.push(e);
            },
        }
    }
    proof {
        lemma_grouping_conserves_weight(hist@, d as nat);
        lemma_groups_are_apart(hist@, d as nat);
        lemma_grouping_without_threshold(hist@);
    }
    groups
}

/// The palette of the groups of a histogram that is ordered by ascending
/// count: the groups by descending weight, and of them the first `results`.
pub fn grouped_palette(hist: &Vec<PaletteEntry>, d: u64, results: usize) -> (palette: Vec<
    PaletteEntry,
>)
    requires
        total_weight(hist@) <= u64::MAX,
    ensures
        palette@ == first_entries(ranked(grouped(hist@, d as nat)), results as nat),
        is_descending(palette@),
        is_separated(palette@, d as nat),
{
    let groups: Vec<PaletteEntry> = group_colors(hist, d);
    let ranking: Vec<PaletteEntry> = rank(&groups);
    let palette: Vec<PaletteEntry> = top(&ranking, results);
    proof {
        lemma_ranked_separated(groups@, d as nat);
        lemma_first_entries_separated(ranking@, d as nat, results as nat);
    }
    palette
}

} // verus!
