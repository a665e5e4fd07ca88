//! Seeding of the clusterer: the first center is any pixel, each further one
//! a pixel drawn with a weight that grows with its distance from the centers
//! chosen so far.

use crate::color::{
    color_distance, dist, lemma_distance_bound, lemma_distance_zero_iff_equal, Color,
    MAX_DISTANCE,
};
use crate::error::ClusterError;
use crate::random::RandomSource;
use vstd::prelude::*;

verus! {

/// Distance from `p` to the nearest of `centers`; the largest distance there
/// is where there is no center.
pub open spec fn nearest_distance(centers: Seq<Color>, p: Color) -> nat
    decreases centers.len(),
{
    if centers.len() == 0 {
        MAX_DISTANCE as nat
    } else {
        let rest = nearest_distance(centers.drop_last(), p);
        let d = color_distance(centers.last(), p);
        if d < rest {
            d
        } else {
            rest
        }
    }
}

/// Weight with which `p` is drawn as the next center: the square of its
/// distance to the nearest center.
pub open spec fn seed_weight(centers: Seq<Color>, p: Color) -> nat {
    nearest_distance(centers, p) * nearest_distance(centers, p)
}

/// The weight of each pixel, in the order of the pixels.
pub open spec fn weights_of(pixels: Seq<Color>, centers: Seq<Color>) -> Seq<u64> {
    Seq::new(pixels.len(), |i: int| seed_weight(centers, pixels[i]) as u64)
}

/// Sum of the first `n` weights.
pub open spec fn prefix_weight(weights: Seq<u64>, n: int) -> nat
    decreases n,
{
    if n <= 0 {
        0
    } else {
        prefix_weight(weights, n - 1) + weights[n - 1] as nat
    }
}

/// Sum of all weights.
pub open spec fn sum_of_weights(weights: Seq<u64>) -> nat {
    prefix_weight(weights, weights.len() as int)
}

/// Walks the weights from index `from` on and stops at the first index at
/// which the running sum, that index included, exceeds `p`.
pub open spec fn pick_from(weights: Seq<u64>, p: nat, from: int) -> int
    decreases weights.len() - from,
{
    if from < 0 || from >= weights.len() {
        from
    } else if p < prefix_weight(weights, from + 1) {
        from
    } else {
        pick_from(weights, p, from + 1)
    }
}

/// The index that a draw of `p` selects.
pub open spec fn pick(weights: Seq<u64>, p: nat) -> int {
    pick_from(weights, p, 0)
}

/// The seeds that `draws` select: the first draw is the index of the first
/// seed, and each further draw selects the next seed by the weights that the
/// pixels have against the seeds in front of it.
pub open spec fn seeds_from(pixels: Seq<Color>, draws: Seq<u128>) -> Seq<Color>
    decreases draws.len(),
{
    if draws.len() == 0 {
        Seq::empty()
    } else if draws.len() == 1 {
        seq![pixels[draws[0] as int]]
    } else {
        let chosen = seeds_from(pixels, draws.drop_last());
        chosen.push(pixels[pick(weights_of(pixels, chosen), draws.last() as nat)])
    }
}

/// `draws` are draws of a seeding: the first is an index of a pixel, and each
/// further one lies below the sum of the weights that the pixels have
/// against the seeds of the draws in front of it.
pub open spec fn are_seeding_draws(pixels: Seq<Color>, draws: Seq<u128>) -> bool {
    &&& draws.len() > 0 ==> draws[0] < pixels.len()
    &&& forall|j: int|
        1 <= j < draws.len() ==> draws[j] < sum_of_weights(
            weights_of(pixels, seeds_from(pixels, #[trigger] draws.take(j))),
        )
}

/// The nearest center is no further than any center.
pub proof fn lemma_nearest_is_lower_bound(centers: Seq<Color>, p: Color, j: int)
    requires
        0 <= j < centers.len(),
    ensures
        nearest_distance(centers, p) <= color_distance(centers[j], p),
    decreases centers.len(),
{
    if j < centers.len() - 1 {
        lemma_nearest_is_lower_bound(centers.drop_last(), p, j);
    }
}

/// The distance to the nearest center is the distance to one of them, and
/// within the largest distance there is.
pub proof fn lemma_nearest_is_attained(centers: Seq<Color>, p: Color)
    ensures
        nearest_distance(centers, p) <= MAX_DISTANCE,
        centers.len() > 0 ==> exists|j: int|
            0 <= j < centers.len() && nearest_distance(centers, p) == color_distance(
                #[trigger] centers[j],
                p,
            ),
    decreases centers.len(),
{
    if centers.len() > 0 {
        let init = centers.drop_last();
        lemma_nearest_is_attained(init, p);
        lemma_distance_bound(centers.last(), p);
        let d = color_distance(centers.last(), p);
        if d < nearest_distance(init, p) || init.len() == 0 {
            let j = centers.len() - 1;
            assert(nearest_distance(centers, p) == color_distance(centers[j], p));
        } else {
            let j = choose|j: int|
                0 <= j < init.len() && nearest_distance(init, p) == color_distance(
                    #[trigger] init[j],
                    p,
                );
            assert(nearest_distance(centers, p) == color_distance(centers[j], p));
        }
    }
}

/// A pixel has weight zero exactly where it has the color of a center.
pub proof fn lemma_weight_zero_iff_center(centers: Seq<Color>, p: Color)
    requires
        centers.len() > 0,
    ensures
        seed_weight(centers, p) == 0 <==> centers.contains(p),
        seed_weight(centers, p) <= MAX_DISTANCE * MAX_DISTANCE,
{
    let n = nearest_distance(centers, p);
    lemma_nearest_is_attained(centers, p);
    assert(n * n <= 441 * 441 && (n * n == 0 <==> n == 0)) by (nonlinear_arith)
        requires
            n <= 441,
    ;
    if centers.contains(p) {
        let j = choose|j: int| 0 <= j < centers.len() && centers[j] == p;
        lemma_nearest_is_lower_bound(centers, p, j);
        lemma_distance_zero_iff_equal(centers[j], p);
    }
    if n == 0 {
        let j = choose|j: int|
            0 <= j < centers.len() && nearest_distance(centers, p) == color_distance(
                #[trigger] centers[j],
                p,
            );
        lemma_distance_zero_iff_equal(centers[j], p);
        assert(centers[j] == p);
    }
}

/// Prefix sums do not decrease.
pub proof fn lemma_prefix_weight_monotonic(weights: Seq<u64>, m: int, n: int)
    requires
        0 <= m <= n,
    ensures
        prefix_weight(weights, m) <= prefix_weight(weights, n),
    decreases n - m,
{
    if m < n {
        lemma_prefix_weight_monotonic(weights, m, n - 1);
    }
}

/// A sequence of weights sums to zero exactly where each of them is zero.
pub proof fn lemma_sum_zero_iff_all_zero(weights: Seq<u64>, n: int)
    requires
        0 <= n <= weights.len(),
    ensures
        prefix_weight(weights, n) == 0 <==> forall|i: int| 0 <= i < n ==> weights[i] == 0,
    decreases n,
{
    if n > 0 {
        lemma_sum_zero_iff_all_zero(weights, n - 1);
    }
}

/// A draw below the sum of the weights selects an index of positive weight:
/// the one whose weight takes the running sum beyond the draw.
pub proof fn lemma_pick(weights: Seq<u64>, p: nat, from: int)
    requires
        0 <= from <= weights.len(),
        prefix_weight(weights, from) <= p < sum_of_weights(weights),
    ensures
        from <= pick_from(weights, p, from) < weights.len(),
        prefix_weight(weights, pick_from(weights, p, from)) <= p < prefix_weight(
            weights,
            pick_from(weights, p, from) + 1,
        ),
        weights[pick_from(weights, p, from)] > 0,
    decreases weights.len() - from,
{
    if from < weights.len() && !(p < prefix_weight(weights, from + 1)) {
        lemma_pick(weights, p, from + 1);
    }
}

/// The seeds of the draws of a seeding are colors of pixels, and no two of
/// them are one color: a pixel with the color of a seed has no weight, and
/// no draw selects it.
pub proof fn lemma_seeds_differ(pixels: Seq<Color>, draws: Seq<u128>)
    requires
        are_seeding_draws(pixels, draws),
    ensures
        seeds_from(pixels, draws).len() == draws.len(),
        seeds_from(pixels, draws).no_duplicates(),
        forall|j: int|
            0 <= j < draws.len() ==> pixels.contains(#[trigger] seeds_from(pixels, draws)[j]),
    decreases draws.len(),
{
    let seeds = seeds_from(pixels, draws);
    if draws.len() == 1 {
        assert(pixels[draws[0] as int] == seeds[0]);
    } else if draws.len() > 1 {
        let init = draws.drop_last();
        let chosen = seeds_from(pixels, init);
        assert(are_seeding_draws(pixels, init)) by {
            assert(init[0] == draws[0]);
            assert forall|j: int| 1 <= j < init.len() implies init[j] < sum_of_weights(
                weights_of(pixels, seeds_from(pixels, #[trigger] init.take(j))),
            ) by {
                assert(init.take(j) =~= draws.take(j));
                assert(init[j] == draws[j]);
            }
        }
        lemma_seeds_differ(pixels, init);
        let weights = weights_of(pixels, chosen);
        let p = draws.last() as nat;
        assert(draws.take(draws.len() - 1) =~= init);
        assert(draws[draws.len() - 1] < sum_of_weights(weights));
        lemma_pick(weights, p, 0);
        let i = pick(weights, p);
        let next = pixels[i];
        lemma_weight_zero_iff_center(chosen, next);
        assert(weights[i] == seed_weight(chosen, next) as u64);
        assert(!chosen.contains(next));
        assert(seeds == chosen.push(next));
        assert forall|j: int| 0 <= j < draws.len() implies pixels.contains(#[trigger] seeds[j]) by {
            if j < chosen.len() {
                assert(seeds[j] == chosen[j]);
            } else {
                assert(pixels[i] == seeds[j]);
            }
        }
        assert forall|a: int, b: int|
            0 <= a < seeds.len() && 0 <= b < seeds.len() && a != b implies seeds[a] != seeds[b] by {
            if a == chosen.len() {
                assert(chosen.contains(chosen[b]));
            } else if b == chosen.len() {
                assert(chosen.contains(chosen[a]));
            }
        }
    }
}

/// Distance from `p` to the nearest of `centers`.
pub fn nearest(centers: &Vec<Color>, p: &Color) -> (d: u64)
    ensures
        d == nearest_distance(centers@, *p),
        d <= MAX_DISTANCE,
{
    let mut best: u64 = MAX_DISTANCE;
    let mut c: usize = 0;
    while c < centers.len()
        invariant
            c <= centers.len(),
            best == nearest_distance(centers@.take(c as int), *p),
            best <= MAX_DISTANCE,
        decreases centers.len() - c,
    {
        let d: u64 = dist(&centers[c], p);
        proof {
            assert(centers@.take(c + 1).drop_last() =~= centers@.take(c as int));
        }
        if d < best {
            best = d;
        }
        c = c + 1;
    }
    proof {
        assert(centers@.take(c as int) =~= centers@);
    }
    best
}

/// The weight of each pixel against `centers`: the square of its distance to
/// the nearest of them.
pub fn seed_weights(pixels: &Vec<Color>, centers: &Vec<Color>) -> (weights: Vec<u64>)
    ensures
        weights@ == weights_of(pixels@, centers@),
{
    let mut weights: Vec<u64> = Vec::new();
    let mut i: usize = 0;
    while i < pixels.len()
        invariant
            i <= pixels.len(),
            weights@.len() == i,
            forall|j: int| 0 <= j < i ==> weights@[j] == seed_weight(centers@, pixels@[j]) as u64,
        decreases pixels.len() - i,
    {
        let d: u64 = nearest(centers, &pixels[i]);
        proof {
            assert(d * d <= 441 * 441) by (nonlinear_arith)
                requires
                    d <= 441,
            ;
        }
        weights.push(d * d);
        i = i + 1;
    }
    proof {
        assert(weights@ =~= weights_of(pixels@, centers@));
    }
    weights
}

/// Sum of all weights.
pub fn total_weight_of(weights: &Vec<u64>) -> (total: u128)
    ensures
        total == sum_of_weights(weights@),
{
    let mut total: u128 = 0;
    let mut i: usize = 0;
    while i < weights.len()
        invariant
            i <= weights.len(),
            total == prefix_weight(weights@, i as int),
            total <= i * 0xffff_ffff_ffff_ffff,
        decreases weights.len() - i,
    {
        total = total + weights[i] as u128;
        i = i + 1;
    }
    total
}

/// The index that a draw of `p` selects: the first at which the running sum
/// of the weights, that index included, exceeds `p`. There is none where `p`
/// is not below the sum of all weights.
pub fn pick_weighted(weights: &Vec<u64>, p: u128) -> (picked: Option<usize>)
    ensures
        picked is Some <==> p < sum_of_weights(weights@),
        picked matches Some(i) ==> {
            &&& i == pick(weights@, p as nat)
            &&& i < weights@.len()
            &&& prefix_weight(weights@, i as int) <= p < prefix_weight(weights@, i + 1)
            &&& weights@[i as int] > 0
        },
{
    let mut sofar: u128 = 0;
    let mut i: usize = 0;
    while i < weights.len()
        invariant
            i <= weights.len(),
            sofar == prefix_weight(weights@, i as int),
            sofar <= i * 0xffff_ffff_ffff_ffff,
            sofar <= p,
            pick(weights@, p as nat) == pick_from(weights@, p as nat, i as int),
        decreases weights.len() - i,
    {
        if p < sofar + weights[i] as u128 {
            proof {
                lemma_prefix_weight_monotonic(weights@, i + 1, weights@.len() as int);
            }
            return Some(i);
        }
        sofar = sofar + weights[i] as u128;
        i = i + 1;
    }
    None
}

/// Seeds `clusters` centers among `pixels`. The first is the pixel at an
/// index drawn from all indices. Each further one is picked by a draw below
/// the sum of the weights that the pixels have against the centers so far,
/// so that a pixel far from all of them is likelier than one nearby, and one
/// with the color of a center is never picked: the seeds differ from one
/// another. The seeds are those that the draws made select. The seeding
/// fails where no cluster is asked for, where there is no pixel, and where
/// the pixels have fewer distinct colors than clusters are asked for.
pub fn seed_centroids<R: RandomSource>(pixels: &Vec<Color>, clusters: usize, rng: &mut R) -> (res:
    Result<Vec<Color>, ClusterError>)
    ensures
        old(rng).drawn().is_prefix_of(final(rng).drawn()),
        res is Ok <==> clusters > 0 && pixels@.len() > 0 && pixels@.to_set().len() >= clusters,
        res matches Ok(seeds) ==> {
            let made = final(rng).drawn().skip(old(rng).drawn().len() as int);
            &&& seeds@.len() == clusters
            &&& made.len() == clusters
            &&& are_seeding_draws(pixels@, made)
            &&& seeds@ == seeds_from(pixels@, made)
            &&& seeds@.no_duplicates()
            &&& forall|j: int| 0 <= j < seeds@.len() ==> pixels@.contains(#[trigger] seeds@[j])
        },
        res matches Err(e) ==> e == if clusters == 0 {
            ClusterError::NoClusters
        } else if pixels@.len() == 0 {
            ClusterError::EmptyImage
        } else {
            ClusterError::DegenerateClustering
        },
{
    if clusters == 0 {
        return Err(ClusterError::NoClusters);
    }
    if pixels.len() == 0 {
        return Err(ClusterError::EmptyImage);
    }
    let ghost before = rng.drawn();
    let first: u128 = rng.draw_below(pixels.len() as u128);
    let mut seeds: Vec<Color> = Vec::new();
    seeds.push(pixels[first as usize]);
    proof {
        let made = rng.drawn().skip(before.len() as int);
        assert(made =~= seq![first]);
        assert(seeds@ =~= seeds_from(pixels@, made));
    }
    while seeds.len() < clusters
        invariant
            0 < seeds@.len() <= clusters,
            pixels@.len() > 0,
            before == old(rng).drawn(),
            before.is_prefix_of(rng.drawn()),
            rng.drawn().len() == before.len() + seeds@.len(),
            are_seeding_draws(pixels@, rng.drawn().skip(before.len() as int)),
            seeds@ == seeds_from(pixels@, rng.drawn().skip(before.len() as int)),
        decreases clusters - seeds@.len(),
    {
        let ghost made = rng.drawn().skip(before.len() as int);
        let weights: Vec<u64> = seed_weights(pixels, &seeds);
        let total: u128 = total_weight_of(&weights);
        if total == 0 {
            proof {
                lemma_seeds_differ(pixels@, made);
                lemma_colors_used_up(pixels@, seeds@);
            }
            return Err(ClusterError::DegenerateClustering);
        }
        let p: u128 = rng.draw_below(total);
        let picked: Option<usize> = pick_weighted(&weights, p);
        let i: usize = picked.unwrap();
        proof {
            let extended = rng.drawn().skip(before.len() as int);
            assert(extended =~= made.push(p));
            assert(extended.drop_last() =~= made);
            assert forall|j: int| 1 <= j < extended.len() implies extended[j] < sum_of_weights(
                weights_of(pixels@, seeds_from(pixels@, #[trigger] extended.take(j))),
            ) by {
                if j < made.len() {
                    assert(extended.take(j) =~= made.take(j));
                } else {
                    assert(extended.take(j) =~= made);
                }
            }
        }
        seeds.push(pixels[i]);
    }
    proof {
        lemma_seeds_differ(pixels@, rng.drawn().skip(before.len() as int));
        lemma_enough_colors(pixels@, seeds@);
    }
    Ok(seeds)
}

/// Where every pixel weighs nothing against a set of distinct pixel colors,
/// the pixels have no other colors than these.
pub proof fn lemma_colors_used_up(pixels: Seq<Color>, seeds: Seq<Color>)
    requires
        seeds.len() > 0,
        seeds.no_duplicates(),
        forall|j: int| 0 <= j < seeds.len() ==> pixels.contains(#[trigger] seeds[j]),
        sum_of_weights(weights_of(pixels, seeds)) == 0,
    ensures
        pixels.to_set().len() == seeds.len(),
{
    let weights = weights_of(pixels, seeds);
    lemma_sum_zero_iff_all_zero(weights, weights.len() as int);
    assert(pixels.to_set() =~= seeds.to_set()) by {
        assert forall|c: Color| pixels.to_set().contains(c) implies seeds.to_set().contains(c) by {
            let i = choose|i: int| 0 <= i < pixels.len() && pixels[i] == c;
            assert(weights[i] == 0);
            lemma_weight_zero_iff_center(seeds, c);
            assert(seed_weight(seeds, c) <= 441 * 441);
        }
        assert forall|c: Color| seeds.to_set().contains(c) implies pixels.to_set().contains(c) by {
            let j = choose|j: int| 0 <= j < seeds.len() && seeds[j] == c;
            assert(pixels.contains(seeds[j]));
        }
    }
    seeds.unique_seq_to_set();
}

/// Distinct pixel colors are no more than the pixels have distinct colors.
pub proof fn lemma_enough_colors(pixels: Seq<Color>, seeds: Seq<Color>)
    requires
        seeds.no_duplicates(),
        forall|j: int| 0 <= j < seeds.len() ==> pixels.contains(#[trigger] seeds[j]),
    ensures
        pixels.to_set().len() >= seeds.len(),
{
    vstd::seq_lib::seq_to_set_is_finite(pixels);
    vstd::seq_lib::seq_to_set_is_finite(seeds);
    assert(seeds.to_set().subset_of(pixels.to_set())) by {
        assert forall|c: Color| seeds.to_set().contains(c) implies pixels.to_set().contains(c) by {
            let j = choose|j: int| 0 <= j < seeds.len() && seeds[j] == c;
            assert(pixels.contains(seeds[j]));
        }
    }
    vstd::set_lib::lemma_len_subset(seeds.to_set(), pixels.to_set());
    seeds.unique_seq_to_set();
}

} // verus!
