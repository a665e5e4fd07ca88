//! The exact-color histogram of an image: one entry for each color that
//! occurs, with the number of pixels that have it, ordered by ascending
//! count.

use crate::color::Color;
use crate::palette::{total_weight, PaletteEntry};
use vstd::prelude::*;

verus! {

/// Number of places at which `v` stands in `s`.
pub open spec fn occurrences<T>(s: Seq<T>, v: T) -> nat
    decreases s.len(),
{
    if s.len() == 0 {
        0
    } else {
        occurrences(s.drop_last(), v) + if s.last() == v {
            1nat
        } else {
            0nat
        }
    }
}

/// A color as one number: red counts most, blue least.
pub open spec fn color_code(c: Color) -> nat {
    (c.r * 65536 + c.g * 256 + c.b) as nat
}

/// The order of a histogram: the entry of the lower count comes first, and of
/// two entries of one count the one with the lower color code.
pub open spec fn precedes(a: PaletteEntry, b: PaletteEntry) -> bool {
    a.weight < b.weight || (a.weight == b.weight && color_code(a.color) < color_code(b.color))
}

/// No entry of `entries` precedes one that stands in front of it.
pub open spec fn is_ascending(entries: Seq<PaletteEntry>) -> bool {
    forall|i: int, j: int|
        0 <= i < j < entries.len() ==> !precedes(#[trigger] entries[j], #[trigger] entries[i])
}

/// `entries` has an entry for the color `c`.
pub open spec fn has_entry(entries: Seq<PaletteEntry>, c: Color) -> bool {
    exists|i: int| 0 <= i < entries.len() && (#[trigger] entries[i]).color == c
}

/// `hist` is the histogram of `pixels`: each entry holds a color with the
/// number of pixels that have it, each color of a pixel has an entry, and
/// every entry precedes those behind it, so that no color has two.
pub open spec fn is_histogram(pixels: Seq<Color>, hist: Seq<PaletteEntry>) -> bool {
    &&& forall|i: int|
        0 <= i < hist.len() ==> (#[trigger] hist[i]).weight == occurrences(pixels, hist[i].color)
            && hist[i].weight > 0
    &&& forall|i: int, j: int|
        0 <= i < j < hist.len() ==> precedes(#[trigger] hist[i], #[trigger] hist[j])
    &&& forall|k: int| 0 <= k < pixels.len() ==> has_entry(hist, #[trigger] pixels[k])
}

/// The entry that one pixel of color `c` makes.
pub open spec fn single(c: Color) -> PaletteEntry {
    PaletteEntry { color: c, weight: 1 }
}

/// Colors with one code are one color, so that of two entries that differ
/// one precedes the other.
pub proof fn lemma_precedes_total(a: PaletteEntry, b: PaletteEntry)
    ensures
        color_code(a.color) == color_code(b.color) ==> a.color == b.color,
        a == b || precedes(a, b) || precedes(b, a),
{
}

/// A further element adds one to the occurrences of its value and none to
/// those of another.
pub proof fn lemma_occurrences_push<T>(s: Seq<T>, x: T, v: T)
    ensures
        occurrences(s.push(x), v) == occurrences(s, v) + if x == v {
            1nat
        } else {
            0nat
        },
{
    assert(s.push(x).drop_last() =~= s);
}

/// The occurrences in two sequences add up to those in their concatenation.
pub proof fn lemma_occurrences_concat<T>(a: Seq<T>, b: Seq<T>, v: T)
    ensures
        occurrences(a + b, v) == occurrences(a, v) + occurrences(b, v),
    decreases b.len(),
{
    if b.len() == 0 {
        assert(a + b =~= a);
    } else {
        lemma_occurrences_concat(a, b.drop_last(), v);
        assert((a + b).drop_last() =~= a + b.drop_last());
    }
}

/// A value occurs as often as it has places: at least once where it has a
/// place, twice where it has two, and where it occurs it has a place.
pub proof fn lemma_occurrences_places<T>(s: Seq<T>, v: T)
    ensures
        forall|i: int| 0 <= i < s.len() && #[trigger] s[i] == v ==> occurrences(s, v) >= 1,
        forall|i: int, j: int|
            0 <= i < j < s.len() && #[trigger] s[i] == v && #[trigger] s[j] == v ==> occurrences(
                s,
                v,
            ) >= 2,
        occurrences(s, v) >= 1 ==> exists|i: int| 0 <= i < s.len() && #[trigger] s[i] == v,
        occurrences(s, v) <= s.len(),
    decreases s.len(),
{
    if s.len() > 0 {
        let init = s.drop_last();
        lemma_occurrences_places(init, v);
        assert forall|i: int| 0 <= i < s.len() && #[trigger] s[i] == v implies occurrences(s, v)
            >= 1 by {
            if i < init.len() {
                assert(init[i] == v);
            }
        }
        assert forall|i: int, j: int|
            0 <= i < j < s.len() && #[trigger] s[i] == v && #[trigger] s[j] == v implies occurrences(
            s,
            v,
        ) >= 2 by {
            assert(init[i] == v);
            if j < init.len() {
                assert(init[j] == v);
            }
        }
        if occurrences(s, v) >= 1 {
            if s.last() == v {
                assert(s[s.len() - 1] == v);
            } else {
                let i = choose|i: int| 0 <= i < init.len() && #[trigger] init[i] == v;
                assert(s[i] == v);
            }
        }
    }
}

/// A color occurs among pixels as often as its single entry occurs among
/// their single entries.
pub proof fn lemma_occurrences_single(pixels: Seq<Color>, singles: Seq<PaletteEntry>, c: Color)
    requires
        singles.len() == pixels.len(),
        forall|i: int| 0 <= i < pixels.len() ==> singles[i] == single(pixels[i]),
    ensures
        occurrences(singles, single(c)) == occurrences(pixels, c),
    decreases pixels.len(),
{
    if pixels.len() > 0 {
        lemma_occurrences_single(pixels.drop_last(), singles.drop_last(), c);
    }
}

/// The weights of two sequences add up to that of their concatenation.
pub proof fn lemma_total_weight_concat(a: Seq<PaletteEntry>, b: Seq<PaletteEntry>)
    ensures
        total_weight(a + b) == total_weight(a) + total_weight(b),
    decreases b.len(),
{
    if b.len() == 0 {
        assert(a + b =~= a);
    } else {
        lemma_total_weight_concat(a, b.drop_last());
        assert((a + b).drop_last() =~= a + b.drop_last());
    }
}

/// The code of a color.
fn code_of(c: &Color) -> (code: u32)
    ensures
        code == color_code(*c),
{
    c.r as u32 * 65536 + c.g as u32 * 256 + c.b as u32
}

/// Whether `a` comes in front of `b` in a histogram.
fn comes_before(a: &PaletteEntry, b: &PaletteEntry) -> (before: bool)
    ensures
        before == precedes(*a, *b),
{
    a.weight < b.weight || (a.weight == b.weight && code_of(&a.color) < code_of(&b.color))
}

/// The entries of `v` from index `from` up to index `to`.
fn part(v: &Vec<PaletteEntry>, from: usize, to: usize) -> (out: Vec<PaletteEntry>)
    requires
        from <= to <= v@.len(),
    ensures
        out@ == v@.subrange(from as int, to as int),
{
    let mut out: Vec<PaletteEntry> = Vec::new();
    let mut i: usize = from;
    while i < to
        invariant
            from <= i <= to <= v@.len(),
            out@ == v@.subrange(from as int, i as int),
        decreases to - i,
    {
        out.push(v[i]);
        proof {
            assert(v@.subrange(from as int, i as int).push(v@[i as int]) =~= v@.subrange(
                from as int,
                i + 1,
            ));
        }
        i = i + 1;
    }
    out
}

/// Merges two ascending sequences into one.
fn merge(a: &Vec<PaletteEntry>, b: &Vec<PaletteEntry>) -> (out: Vec<PaletteEntry>)
    requires
        is_ascending(a@),
        is_ascending(b@),
        a@.len() + b@.len() <= usize::MAX,
    ensures
        is_ascending(out@),
        out@.len() == a@.len() + b@.len(),
        forall|e: PaletteEntry| #[trigger]
            occurrences(out@, e) == occurrences(a@, e) + occurrences(b@, e),
        total_weight(out@) == total_weight(a@) + total_weight(b@),
{
    let mut out: Vec<PaletteEntry> = Vec::new();
    let mut i: usize = 0;
    let mut j: usize = 0;
    while i < a.len() || j < b.len()
        invariant
            i <= a@.len(),
            j <= b@.len(),
            a@.len() + b@.len() <= usize::MAX,
            is_ascending(a@),
            is_ascending(b@),
            is_ascending(out@),
            out@.len() == i + j,
            forall|e: PaletteEntry| #[trigger]
                occurrences(out@, e) == occurrences(a@.take(i as int), e) + occurrences(
                    b@.take(j as int),
                    e,
                ),
            total_weight(out@) == total_weight(a@.take(i as int)) + total_weight(
                b@.take(j as int),
            ),
            forall|k: int, m: int|
                0 <= k < out@.len() && i <= m < a@.len() ==> !precedes(
                    #[trigger] a@[m],
                    #[trigger] out@[k],
                ),
            forall|k: int, m: int|
                0 <= k < out@.len() && j <= m < b@.len() ==> !precedes(
                    #[trigger] b@[m],
                    #[trigger] out@[k],
                ),
        decreases a@.len() + b@.len() - i - j,
    {
        let from_a: bool = j >= b.len() || (i < a.len() && !comes_before(&b[j], &a[i]));
        let ghost before = out@;
        if from_a {
            let x: PaletteEntry = a[i];
            out.push(x);
            proof {
                assert(a@.take(i + 1).drop_last() =~= a@.take(i as int));
                assert forall|e: PaletteEntry| #[trigger]
                    occurrences(out@, e) == occurrences(a@.take(i + 1), e) + occurrences(
                        b@.take(j as int),
                        e,
                    ) by {
                    lemma_occurrences_push(before, x, e);
                    assert(occurrences(before, e) == occurrences(a@.take(i as int), e)
                        + occurrences(b@.take(j as int), e));
                }
                assert(out@.drop_last() =~= before);
            }
            i = i + 1;
        } else {
            let x: PaletteEntry = b[j];
            out.push(x);
            proof {
                assert(b@.take(j + 1).drop_last() =~= b@.take(j as int));
                assert forall|e: PaletteEntry| #[trigger]
                    occurrences(out@, e) == occurrences(a@.take(i as int), e) + occurrences(
                        b@.take(j + 1),
                        e,
                    ) by {
                    lemma_occurrences_push(before, x, e);
                    assert(occurrences(before, e) == occurrences(a@.take(i as int), e)
                        + occurrences(b@.take(j as int), e));
                }
                assert(out@.drop_last() =~= before);
            }
            j = j + 1;
        }
    }
    proof {
        assert(a@.take(i as int) =~= a@);
        assert(b@.take(j as int) =~= b@);
    }
    out
}

/// The entries of `v` in the order of a histogram: each as often as `v` has
/// it, and none in front of one that precedes it.
pub fn sort_entries(v: &Vec<PaletteEntry>) -> (out: Vec<PaletteEntry>)
    ensures
        is_ascending(out@),
        out@.len() == v@.len(),
        forall|e: PaletteEntry| #[trigger] occurrences(out@, e) == occurrences(v@, e),
        total_weight(out@) == total_weight(v@),
    decreases v@.len(),
{
    if v.len() <= 1 {
        let out: Vec<PaletteEntry> = part(v, 0, v.len());
        proof {
            assert(v@.subrange(0, v@.len() as int) =~= v@);
        }
        return out;
    }
    let mid: usize = v.len() / 2;
    let left: Vec<PaletteEntry> = part(v, 0, mid);
    let right: Vec<PaletteEntry> = part(v, mid, v.len());
    let low: Vec<PaletteEntry> = sort_entries(&left);
    let high: Vec<PaletteEntry> = sort_entries(&right);
    let out: Vec<PaletteEntry> = merge(&low, &high);
    proof {
        assert(left@ + right@ =~= v@);
        lemma_total_weight_concat(left@, right@);
        assert forall|e: PaletteEntry| #[trigger] occurrences(out@, e) == occurrences(v@, e) by {
            lemma_occurrences_concat(left@, right@, e);
            assert(occurrences(low@, e) == occurrences(left@, e));
            assert(occurrences(high@, e) == occurrences(right@, e));
        }
    }
    out
}

/// Counts the runs of one color in a sequence of single entries that is in
/// the order of a histogram: one entry for each color, with the number of
/// its occurrences, by ascending color code.
fn count_runs(sorted: &Vec<PaletteEntry>) -> (runs: Vec<PaletteEntry>)
    requires
        is_ascending(sorted@),
        forall|i: int| 0 <= i < sorted@.len() ==> (#[trigger] sorted@[i]).weight == 1,
    ensures
        forall|i: int|
            0 <= i < runs@.len() ==> (#[trigger] runs@[i]).weight == occurrences(
                sorted@,
                single(runs@[i].color),
            ) && runs@[i].weight > 0,
        forall|i: int, j: int|
            0 <= i < j < runs@.len() ==> color_code((#[trigger] runs@[i]).color) < color_code(
                (#[trigger] runs@[j]).color,
            ),
        forall|k: int| 0 <= k < sorted@.len() ==> has_entry(runs@, (#[trigger] sorted@[k]).color),
        total_weight(runs@) == sorted@.len(),
{
    let mut runs: Vec<PaletteEntry> = Vec::new();
    if sorted.len() == 0 {
        return runs;
    }
    let mut current: Color = sorted[0].color;
    let mut count: u64 = 1;
    let mut k: usize = 1;
    proof {
        let none = Seq::<PaletteEntry>::empty();
        assert(sorted@[0] == single(current));
        assert(sorted@.take(1) =~= none.push(sorted@[0]));
        lemma_occurrences_push(none, sorted@[0], single(current));
    }
    while k < sorted.len()
        invariant
            1 <= k <= sorted@.len(),
            is_ascending(sorted@),
            forall|i: int| 0 <= i < sorted@.len() ==> (#[trigger] sorted@[i]).weight == 1,
            current == sorted@[k - 1].color,
            count == occurrences(sorted@.take(k as int), single(current)),
            1 <= count <= k,
            forall|i: int|
                0 <= i < runs@.len() ==> (#[trigger] runs@[i]).weight == occurrences(
                    sorted@.take(k as int),
                    single(runs@[i].color),
                ) && runs@[i].weight > 0 && color_code(runs@[i].color) < color_code(current),
            forall|i: int, j: int|
                0 <= i < j < runs@.len() ==> color_code((#[trigger] runs@[i]).color) < color_code(
                    (#[trigger] runs@[j]).color,
                ),
            forall|m: int|
                0 <= m < k ==> (#[trigger] sorted@[m]).color == current || has_entry(
                    runs@,
                    sorted@[m].color,
                ),
            total_weight(runs@) + count == k,
        decreases sorted@.len() - k,
    {
        let next: Color = sorted[k].color;
        let ghost done = sorted@.take(k as int);
        let ghost before = runs@;
        proof {
            assert(sorted@.take(k + 1) =~= done.push(sorted@[k as int]));
            assert(sorted@[k as int] == single(next));
            assert(!precedes(sorted@[k as int], sorted@[k - 1]));
            lemma_precedes_total(single(next), single(current));
            assert forall|i: int| 0 <= i < before.len() implies occurrences(
                sorted@.take(k + 1),
                single((#[trigger] before[i]).color),
            ) == occurrences(done, single(before[i].color)) by {
                lemma_occurrences_push(done, single(next), single(before[i].color));
            }
            lemma_occurrences_push(done, single(next), single(current));
            lemma_occurrences_push(done, single(next), single(next));
        }
        if next == current {
            count = count + 1;
        } else {
            proof {
                assert(color_code(current) < color_code(next));
                assert forall|m: int| 0 <= m < done.len() implies #[trigger] done[m] != single(
                    next,
                ) by {
                    assert(!precedes(sorted@[k - 1], sorted@[m]));
                }
                lemma_occurrences_places(done, single(next));
                assert(occurrences(done, single(next)) == 0);
            }
            runs.push(PaletteEntry { color: current, weight: count });
            proof {
                assert(runs@.drop_last() =~= before);
                assert forall|m: int| 0 <= m < k + 1 implies (#[trigger] sorted@[m]).color == next
                    || has_entry(runs@, sorted@[m].color) by {
                    if m < k {
                        if sorted@[m].color == current {
                            assert(runs@[before.len() as int].color == current);
                        } else {
                            let i = choose|i: int|
                                0 <= i < before.len() && (#[trigger] before[i]).color
                                    == sorted@[m].color;
                            assert(runs@[i].color == sorted@[m].color);
                        }
                    }
                }
            }
            current = next;
            count = 1;
        }
        k = k + 1;
    }
    let ghost before = runs@;
    runs.push(PaletteEntry { color: current, weight: count });
    proof {
        assert(sorted@.take(k as int) =~= sorted@);
        assert(runs@.drop_last() =~= before);
        assert forall|m: int| 0 <= m < sorted@.len() implies has_entry(
            runs@,
            (#[trigger] sorted@[m]).color,
        ) by {
            if sorted@[m].color == current {
                assert(runs@[before.len() as int].color == current);
            } else {
                let i = choose|i: int|
                    0 <= i < before.len() && (#[trigger] before[i]).color == sorted@[m].color;
                assert(runs@[i].color == sorted@[m].color);
            }
        }
    }
    runs
}

/// The histogram of `pixels`: one entry for each color that occurs, with the
/// number of pixels that have it. The entries stand by ascending count, and
/// those of one count by ascending color code.
pub fn histogram(pixels: &Vec<Color>) -> (hist: Vec<PaletteEntry>)
    ensures
        is_histogram(pixels@, hist@),
        total_weight(hist@) == pixels@.len(),
        total_weight(hist@) <= usize::MAX,
{
    let mut singles: Vec<PaletteEntry> = Vec::new();
    let mut i: usize = 0;
    while i < pixels.len()
        invariant
            i <= pixels@.len(),
            singles@.len() == i,
            forall|j: int| 0 <= j < i ==> singles@[j] == single(pixels@[j]),
        decreases pixels@.len() - i,
    {
        singles.push(PaletteEntry { color: pixels[i], weight: 1 });
        i = i + 1;
    }
    let sorted: Vec<PaletteEntry> = sort_entries(&singles);
    proof {
        assert forall|m: int| 0 <= m < sorted@.len() implies (#[trigger] sorted@[m]).weight
            == 1 by {
            let e = sorted@[m];
            lemma_occurrences_places(sorted@, e);
            assert(occurrences(singles@, e) >= 1);
            lemma_occurrences_places(singles@, e);
        }
    }
    let runs: Vec<PaletteEntry> = count_runs(&sorted);
    let hist: Vec<PaletteEntry> = sort_entries(&runs);
    proof {
        assert forall|p: int| 0 <= p < hist@.len() implies (#[trigger] hist@[p]).weight
            == occurrences(pixels@, hist@[p].color) && hist@[p].weight > 0 by {
            let e = hist@[p];
            lemma_occurrences_places(hist@, e);
            assert(occurrences(runs@, e) >= 1);
            lemma_occurrences_places(runs@, e);
            let q = choose|q: int| 0 <= q < runs@.len() && #[trigger] runs@[q] == e;
            assert(runs@[q].weight == occurrences(sorted@, single(runs@[q].color)));
            assert(occurrences(sorted@, single(e.color)) == occurrences(
                singles@,
                single(e.color),
            ));
            lemma_occurrences_single(pixels@, singles@, e.color);
        }
        assert forall|p: int, q: int| 0 <= p < q < hist@.len() implies precedes(
            #[trigger] hist@[p],
            #[trigger] hist@[q],
        ) by {
            let e = hist@[p];
            lemma_precedes_total(hist@[p], hist@[q]);
            if hist@[q] == e {
                lemma_occurrences_places(hist@, e);
                assert(occurrences(runs@, e) >= 2);
                lemma_distinct_occur_once(runs@, e);
            }
        }
        assert forall|k: int| 0 <= k < pixels@.len() implies has_entry(
            hist@,
            #[trigger] pixels@[k],
        ) by {
            let c = pixels@[k];
            lemma_occurrences_places(singles@, single(c));
            assert(singles@[k] == single(c));
            assert(occurrences(sorted@, single(c)) >= 1);
            lemma_occurrences_places(sorted@, single(c));
            let m = choose|m: int| 0 <= m < sorted@.len() && #[trigger] sorted@[m] == single(c);
            let q = choose|q: int|
                0 <= q < runs@.len() && (#[trigger] runs@[q]).color == sorted@[m].color;
            let e = runs@[q];
            lemma_occurrences_places(runs@, e);
            assert(occurrences(hist@, e) >= 1);
            lemma_occurrences_places(hist@, e);
            let p = choose|p: int| 0 <= p < hist@.len() && #[trigger] hist@[p] == e;
            assert(hist@[p].color == c);
        }
    }
    hist
}

/// An entry occurs at most once among entries of distinct colors.
pub proof fn lemma_distinct_occur_once(entries: Seq<PaletteEntry>, e: PaletteEntry)
    requires
        forall|i: int, j: int|
            0 <= i < j < entries.len() ==> color_code((#[trigger] entries[i]).color) < color_code(
                (#[trigger] entries[j]).color,
            ),
    ensures
        occurrences(entries, e) <= 1,
    decreases entries.len(),
{
    if entries.len() > 0 {
        let init = entries.drop_last();
        assert forall|i: int, j: int| 0 <= i < j < init.len() implies color_code(
            (#[trigger] init[i]).color,
        ) < color_code((#[trigger] init[j]).color) by {
            assert(init[i] == entries[i]);
            assert(init[j] == entries[j]);
        }
        lemma_distinct_occur_once(init, e);
        if entries.last() == e && occurrences(init, e) >= 1 {
            lemma_occurrences_places(init, e);
            let i = choose|i: int| 0 <= i < init.len() && #[trigger] init[i] == e;
            assert(entries[i] == e);
            assert(color_code(entries[i].color) < color_code(entries[entries.len() - 1].color));
        }
    }
}

/// Two sequences in which every entry precedes those behind it are one
/// sequence where each holds the entries of the other.
pub proof fn lemma_order_fixes_sequence(a: Seq<PaletteEntry>, b: Seq<PaletteEntry>)
    requires
        forall|i: int, j: int| 0 <= i < j < a.len() ==> precedes(#[trigger] a[i], #[trigger] a[j]),
        forall|i: int, j: int| 0 <= i < j < b.len() ==> precedes(#[trigger] b[i], #[trigger] b[j]),
        forall|i: int| 0 <= i < a.len() ==> b.contains(#[trigger] a[i]),
        forall|j: int| 0 <= j < b.len() ==> a.contains(#[trigger] b[j]),
    ensures
        a == b,
    decreases a.len(),
{
    if a.len() == 0 {
        if b.len() > 0 {
            assert(a.contains(b[0]));
        }
        assert(a =~= b);
    } else if b.len() == 0 {
        assert(b.contains(a[0]));
    } else {
        let x = a.last();
        let y = b.last();
        assert(b.contains(a[a.len() - 1]));
        assert(a.contains(b[b.len() - 1]));
        let j = choose|j: int| 0 <= j < b.len() && b[j] == x;
        let i = choose|i: int| 0 <= i < a.len() && a[i] == y;
        lemma_precedes_total(x, y);
        if x != y {
            assert(precedes(a[i], a[a.len() - 1]));
            assert(precedes(b[j], b[b.len() - 1]));
        }
        let a0 = a.drop_last();
        let b0 = b.drop_last();
        assert forall|k: int| 0 <= k < a0.len() implies b0.contains(#[trigger] a0[k]) by {
            assert(b.contains(a[k]));
            let m = choose|m: int| 0 <= m < b.len() && b[m] == a[k];
            assert(precedes(a[k], a[a.len() - 1]));
            assert(b0[m] == a0[k]);
        }
        assert forall|k: int| 0 <= k < b0.len() implies a0.contains(#[trigger] b0[k]) by {
            assert(a.contains(b[k]));
            let m = choose|m: int| 0 <= m < a.len() && a[m] == b[k];
            assert(precedes(b[k], b[b.len() - 1]));
            assert(a0[m] == b0[k]);
        }
        assert forall|k: int, m: int| 0 <= k < m < a0.len() implies precedes(
            #[trigger] a0[k],
            #[trigger] a0[m],
        ) by {
            assert(precedes(a[k], a[m]));
        }
        assert forall|k: int, m: int| 0 <= k < m < b0.len() implies precedes(
            #[trigger] b0[k],
            #[trigger] b0[m],
        ) by {
            assert(precedes(b[k], b[m]));
        }
        lemma_order_fixes_sequence(a0, b0);
        assert(a =~= a0.push(x));
        assert(b =~= b0.push(y));
    }
}

/// An image has one histogram: the counts and the order of the entries leave
/// nothing open.
pub proof fn lemma_histogram_unique(
    pixels: Seq<Color>,
    first: Seq<PaletteEntry>,
    second: Seq<PaletteEntry>,
)
    requires
        is_histogram(pixels, first),
        is_histogram(pixels, second),
    ensures
        first == second,
{
    lemma_histogram_entries_shared(pixels, first, second);
    lemma_histogram_entries_shared(pixels, second, first);
    lemma_order_fixes_sequence(first, second);
}

/// Each entry of a histogram of an image is an entry of every histogram of
/// that image.
pub proof fn lemma_histogram_entries_shared(
    pixels: Seq<Color>,
    first: Seq<PaletteEntry>,
    second: Seq<PaletteEntry>,
)
    requires
        is_histogram(pixels, first),
        is_histogram(pixels, second),
    ensures
        forall|i: int| 0 <= i < first.len() ==> second.contains(#[trigger] first[i]),
{
    assert forall|i: int| 0 <= i < first.len() implies second.contains(#[trigger] first[i]) by {
        let e = first[i];
        lemma_occurrences_places(pixels, e.color);
        let k = choose|k: int| 0 <= k < pixels.len() && #[trigger] pixels[k] == e.color;
        assert(has_entry(second, pixels[k]));
        let j = choose|j: int| 0 <= j < second.len() && (#[trigger] second[j]).color == e.color;
        assert(second[j] == e);
    }
}

} // verus!
