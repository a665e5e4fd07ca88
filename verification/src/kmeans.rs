//! The seeded clusterer: seeding, rounds until the centers come to rest, and
//! the ranking of the centers by the size of their clusters.

use crate::color::Color;
use crate::error::ClusterError;
use crate::lloyd::{
    cluster, lemma_cluster_len, lemma_clusters_partition, lloyd_round, moved_centers, movement,
    sizes_among, Round,
};
use crate::palette::{lemma_ranked_total_weight, rank, ranked, total_weight, PaletteEntry};
use crate::pixels::PixelBuffer;
use crate::random::RandomSource;
use crate::seeding::{are_seeding_draws, seed_centroids, seeds_from};
use vstd::prelude::*;

verus! {

/// The centers after `rounds` rounds that started from `seeds`.
pub open spec fn centers_after(pixels: Seq<Color>, seeds: Seq<Color>, rounds: nat) -> Seq<Color>
    decreases rounds,
{
    if rounds == 0 {
        seeds
    } else {
        moved_centers(pixels, centers_after(pixels, seeds, (rounds - 1) as nat))
    }
}

/// A movement of `delta` in all is at most the square root of the longer
/// side of the image.
pub open spec fn within_tolerance(delta: nat, width: nat, height: nat) -> bool {
    delta * delta <= if width >= height {
        width
    } else {
        height
    }
}

/// How far the centers move in round `round`, the first round being round 1.
pub open spec fn movement_in(pixels: Seq<Color>, seeds: Seq<Color>, round: nat) -> nat {
    movement(
        centers_after(pixels, seeds, round),
        centers_after(pixels, seeds, (round - 1) as nat),
    )
}

/// The centers come to rest in round `round`.
pub open spec fn settles_in(
    pixels: Seq<Color>,
    seeds: Seq<Color>,
    width: nat,
    height: nat,
    round: nat,
) -> bool {
    round >= 1 && within_tolerance(movement_in(pixels, seeds, round), width, height)
}

/// The first round from `from` to `limit` in which the centers come to rest.
pub open spec fn settling_round(
    pixels: Seq<Color>,
    seeds: Seq<Color>,
    width: nat,
    height: nat,
    from: nat,
    limit: nat,
) -> Option<nat>
    decreases limit + 1 - from,
{
    if from > limit {
        None
    } else if settles_in(pixels, seeds, width, height, from) {
        Some(from)
    } else {
        settling_round(pixels, seeds, width, height, from + 1, limit)
    }
}

/// The centers after round `round`, each with the size of the cluster that
/// it was computed from.
pub open spec fn centroids_after(pixels: Seq<Color>, seeds: Seq<Color>, round: nat) -> Seq<
    PaletteEntry,
> {
    let before = centers_after(pixels, seeds, (round - 1) as nat);
    Seq::new(
        seeds.len(),
        |c: int|
            PaletteEntry {
                color: centers_after(pixels, seeds, round)[c],
                weight: cluster(pixels, before, c).len() as u64,
            },
    )
}

/// The palette that the rounds arrive at from `seeds`: the centers of the
/// first round in which they come to rest, ranked by the size of their
/// clusters. There is none if they do not come to rest within `max_rounds`.
pub open spec fn refined(
    pixels: Seq<Color>,
    width: nat,
    height: nat,
    seeds: Seq<Color>,
    max_rounds: nat,
) -> Option<Seq<PaletteEntry>> {
    match settling_round(pixels, seeds, width, height, 1, max_rounds) {
        Some(round) => Some(ranked(centroids_after(pixels, seeds, round))),
        None => None,
    }
}

/// A round keeps the number of centers.
pub proof fn lemma_centers_after_len(pixels: Seq<Color>, seeds: Seq<Color>, rounds: nat)
    ensures
        centers_after(pixels, seeds, rounds).len() == seeds.len(),
    decreases rounds,
{
    if rounds > 0 {
        lemma_centers_after_len(pixels, seeds, (rounds - 1) as nat);
    }
}

/// The settling round is a round in which the centers come to rest, and the
/// first such from `from` on; where there is none, they do not come to rest
/// in any round from `from` to `limit`.
pub proof fn lemma_settling_round(
    pixels: Seq<Color>,
    seeds: Seq<Color>,
    width: nat,
    height: nat,
    from: nat,
    limit: nat,
)
    ensures
        match settling_round(pixels, seeds, width, height, from, limit) {
            Some(round) => {
                &&& from <= round <= limit
                &&& settles_in(pixels, seeds, width, height, round)
                &&& forall|m: nat|
                    from <= m < round ==> !#[trigger] settles_in(pixels, seeds, width, height, m)
            },
            None => forall|m: nat|
                from <= m <= limit ==> !#[trigger] settles_in(pixels, seeds, width, height, m),
        },
    decreases limit + 1 - from,
{
    if from <= limit && !settles_in(pixels, seeds, width, height, from) {
        lemma_settling_round(pixels, seeds, width, height, (from + 1) as nat, limit);
    }
}

/// A palette that the rounds arrive at is that of a round in which the
/// centers have come to rest: they have moved by no more in all than the
/// square root of the longer side of the image allows.
pub proof fn lemma_refined_has_settled(
    pixels: Seq<Color>,
    width: nat,
    height: nat,
    seeds: Seq<Color>,
    max_rounds: nat,
)
    requires
        refined(pixels, width, height, seeds, max_rounds) is Some,
    ensures
        exists|round: nat|
            {
                &&& 1 <= round <= max_rounds
                &&& #[trigger] settles_in(pixels, seeds, width, height, round)
                &&& within_tolerance(movement_in(pixels, seeds, round), width, height)
                &&& refined(pixels, width, height, seeds, max_rounds) == Some(
                    ranked(centroids_after(pixels, seeds, round)),
                )
            },
{
    lemma_settling_round(pixels, seeds, width, height, 1, max_rounds);
    let round = settling_round(pixels, seeds, width, height, 1, max_rounds)->0;
    assert(settles_in(pixels, seeds, width, height, round));
}

/// The first `n` centroids of a round weigh what the first `n` clusters
/// hold.
proof fn lemma_centroid_weights(pixels: Seq<Color>, seeds: Seq<Color>, round: nat, n: int)
    requires
        0 <= n <= seeds.len(),
        pixels.len() <= u64::MAX,
    ensures
        total_weight(centroids_after(pixels, seeds, round).take(n)) == sizes_among(
            pixels,
            centers_after(pixels, seeds, (round - 1) as nat),
            n,
        ),
    decreases n,
{
    let entries = centroids_after(pixels, seeds, round);
    if n > 0 {
        lemma_centroid_weights(pixels, seeds, round, n - 1);
        lemma_cluster_len(pixels, centers_after(pixels, seeds, (round - 1) as nat), n - 1);
        assert(entries.take(n).drop_last() =~= entries.take(n - 1));
    }
}

/// The centroids of a round account for every pixel once: their weights add
/// up to the number of pixels, and so do those of their ranking.
pub proof fn lemma_centroids_account_for_pixels(pixels: Seq<Color>, seeds: Seq<Color>, round: nat)
    requires
        seeds.len() > 0,
        round >= 1,
        pixels.len() <= u64::MAX,
    ensures
        total_weight(centroids_after(pixels, seeds, round)) == pixels.len(),
        total_weight(ranked(centroids_after(pixels, seeds, round))) == pixels.len(),
{
    let entries = centroids_after(pixels, seeds, round);
    let before = centers_after(pixels, seeds, (round - 1) as nat);
    lemma_centers_after_len(pixels, seeds, (round - 1) as nat);
    lemma_centroid_weights(pixels, seeds, round, seeds.len() as int);
    assert(entries.take(seeds.len() as int) =~= entries);
    lemma_clusters_partition(pixels, before);
    lemma_ranked_total_weight(entries);
}

/// Whether a movement of `delta` in all is within the tolerance of an image
/// of `width` by `height`: at most the square root of its longer side.
pub fn settled(delta: u128, width: u32, height: u32) -> (still: bool)
    ensures
        still == within_tolerance(delta as nat, width as nat, height as nat),
{
    let longer: u32 = if width >= height {
        width
    } else {
        height
    };
    if delta > 0xffff {
        proof {
            assert(delta * delta > 0xffff_ffff) by (nonlinear_arith)
                requires
                    delta >= 0x1_0000,
            ;
        }
        false
    } else {
        proof {
            assert(delta * delta <= 0xffff * 0xffff) by (nonlinear_arith)
                requires
                    delta <= 0xffff,
            ;
        }
        delta * delta <= longer as u128
    }
}

/// The centers of a round, each with the size of its cluster.
fn centroids_of(round: &Round) -> (entries: Vec<PaletteEntry>)
    requires
        round.centers@.len() == round.sizes@.len(),
    ensures
        entries@.len() == round.centers@.len(),
        forall|c: int|
            0 <= c < entries@.len() ==> entries@[c] == (PaletteEntry {
                color: round.centers@[c],
                weight: round.sizes@[c],
            }),
{
    let mut entries: Vec<PaletteEntry> = Vec::new();
    let mut c: usize = 0;
    while c < round.centers.len()
        invariant
            c <= round.centers@.len(),
            round.centers@.len() == round.sizes@.len(),
            entries@.len() == c,
            forall|j: int|
                0 <= j < c ==> entries@[j] == (PaletteEntry {
                    color: round.centers@[j],
                    weight: round.sizes@[j],
                }),
        decreases round.centers@.len() - c,
    {
        entries.push(PaletteEntry { color: round.centers[c], weight: round.sizes[c] });
        c = c + 1;
    }
    entries
}

/// Runs rounds from `seeds` until the centers come to rest: until they move
/// by no more in all than the square root of the longer side of the image.
/// The centers of that round come back with the sizes of their clusters,
/// ranked by them. Where the centers do not come to rest within `max_rounds`
/// rounds, the refinement fails.
pub fn refine(img: &PixelBuffer, seeds: &Vec<Color>, max_rounds: u64) -> (res: Result<
    Vec<PaletteEntry>,
    ClusterError,
>)
    ensures
        res matches Ok(palette) ==> refined(
            img@,
            img.cols(),
            img.rows(),
            seeds@,
            max_rounds as nat,
        ) == Some(palette@),
        res matches Err(e) ==> e == ClusterError::NotConverged && refined(
            img@,
            img.cols(),
            img.rows(),
            seeds@,
            max_rounds as nat,
        ) is None,
        res is Ok ==> exists|round: nat|
            1 <= round <= max_rounds && #[trigger] settles_in(
                img@,
                seeds@,
                img.cols(),
                img.rows(),
                round,
            ),
        res matches Ok(palette) ==> palette@.len() == seeds@.len() && (seeds@.len() > 0
            ==> total_weight(palette@) == img@.len()),
{
    let pixels: &Vec<Color> = img.pixels();
    let width: u32 = img.width();
    let height: u32 = img.height();
    let mut centers: Vec<Color> = Vec::new();
    let mut c: usize = 0;
    while c < seeds.len()
        invariant
            c <= seeds@.len(),
            centers@ == seeds@.take(c as int),
        decreases seeds@.len() - c,
    {
        centers.push(seeds[c]);
        proof {
            assert(seeds@.take(c as int).push(seeds@[c as int]) =~= seeds@.take(c + 1));
        }
        c = c + 1;
    }
    proof {
        assert(seeds@.take(c as int) =~= seeds@);
    }
    let mut round: u64 = 0;
    while round < max_rounds
        invariant
            round <= max_rounds,
            pixels@ == img@,
            width == img.cols(),
            height == img.rows(),
            centers@ == centers_after(pixels@, seeds@, round as nat),
            settling_round(pixels@, seeds@, width as nat, height as nat, 1, max_rounds as nat)
                == settling_round(
                pixels@,
                seeds@,
                width as nat,
                height as nat,
                (round + 1) as nat,
                max_rounds as nat,
            ),
        decreases max_rounds - round,
    {
        let outcome: Round = lloyd_round(pixels, &centers);
        round = round + 1;
        proof {
            lemma_centers_after_len(pixels@, seeds@, (round - 1) as nat);
            assert(outcome.centers@ == centers_after(pixels@, seeds@, round as nat));
        }
        if settled(outcome.movement, width, height) {
            let entries: Vec<PaletteEntry> = centroids_of(&outcome);
            proof {
                assert(settles_in(pixels@, seeds@, width as nat, height as nat, round as nat));
                assert(entries@ =~= centroids_after(pixels@, seeds@, round as nat));
                if seeds@.len() > 0 {
                    assert(pixels@.len() == pixels.len());
                    lemma_centroids_account_for_pixels(pixels@, seeds@, round as nat);
                }
                lemma_centers_after_len(pixels@, seeds@, round as nat);
            }
            return Ok(rank(&entries));
        }
        centers = outcome.centers;
    }
    Err(ClusterError::NotConverged)
}

/// What the clusterer arrives at for `clusters` clusters when the draws of
/// its seeding are `draws`.
pub open spec fn kmeans_outcome(
    pixels: Seq<Color>,
    width: nat,
    height: nat,
    clusters: nat,
    draws: Seq<u128>,
    max_rounds: nat,
) -> Result<Seq<PaletteEntry>, ClusterError> {
    if clusters == 0 {
        Err(ClusterError::NoClusters)
    } else if pixels.len() == 0 {
        Err(ClusterError::EmptyImage)
    } else if pixels.to_set().len() < clusters {
        Err(ClusterError::DegenerateClustering)
    } else {
        match refined(pixels, width, height, seeds_from(pixels, draws), max_rounds) {
            Some(palette) => Ok(palette),
            None => Err(ClusterError::NotConverged),
        }
    }
}

/// Two runs on one image for one number of clusters, with one limit of
/// rounds and with the same draws, arrive at the same: the same palette in
/// the same order, or the same failure.
pub proof fn lemma_kmeans_deterministic(
    pixels: Seq<Color>,
    width: nat,
    height: nat,
    clusters: nat,
    max_rounds: nat,
    first_draws: Seq<u128>,
    second_draws: Seq<u128>,
    first: Result<Seq<PaletteEntry>, ClusterError>,
    second: Result<Seq<PaletteEntry>, ClusterError>,
)
    requires
        first_draws == second_draws,
        first == kmeans_outcome(pixels, width, height, clusters, first_draws, max_rounds),
        second == kmeans_outcome(pixels, width, height, clusters, second_draws, max_rounds),
    ensures
        first == second,
{
}

/// Clusters the pixels of `img` into `clusters` clusters: seeds the centers
/// with draws from `rng`, runs rounds until the centers come to rest, and
/// ranks them by the size of their clusters. What comes back is what the
/// draws made lead to. The run fails where the seeding fails, and where the
/// centers do not come to rest within `max_rounds` rounds.
pub fn kmeans<R: RandomSource>(
    img: &PixelBuffer,
    clusters: usize,
    rng: &mut R,
    max_rounds: u64,
) -> (res: Result<Vec<PaletteEntry>, ClusterError>)
    ensures
        old(rng).drawn().is_prefix_of(final(rng).drawn()),
        res matches Ok(palette) ==> kmeans_outcome(
            img@,
            img.cols(),
            img.rows(),
            clusters as nat,
            final(rng).drawn().skip(old(rng).drawn().len() as int),
            max_rounds as nat,
        ) == Ok::<Seq<PaletteEntry>, ClusterError>(palette@),
        res matches Err(e) ==> kmeans_outcome(
            img@,
            img.cols(),
            img.rows(),
            clusters as nat,
            final(rng).drawn().skip(old(rng).drawn().len() as int),
            max_rounds as nat,
        ) == Err::<Seq<PaletteEntry>, ClusterError>(e),
        (match res {
            Ok(_) => true,
            Err(e) => e == ClusterError::NotConverged,
        }) ==> {
            &&& final(rng).drawn().len() == old(rng).drawn().len() + clusters
            &&& are_seeding_draws(img@, final(rng).drawn().skip(old(rng).drawn().len() as int))
        },
        res matches Ok(palette) ==> palette@.len() == clusters && total_weight(palette@)
            == img@.len(),
        res is Ok ==> exists|round: nat|
            1 <= round <= max_rounds && #[trigger] settles_in(
                img@,
                seeds_from(img@, final(rng).drawn().skip(old(rng).drawn().len() as int)),
                img.cols(),
                img.rows(),
                round,
            ),
{
    match seed_centroids(img.pixels(), clusters, rng) {
        Ok(seeds) => refine(img, &seeds, max_rounds),
        Err(e) => Err(e),
    }
}

} // verus!
