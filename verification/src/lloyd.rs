//! One round of the clusterer: every pixel is assigned to its nearest
//! center, and every center moves to the mean of the pixels assigned to it.

use crate::color::{color_distance, dist, Color, MAX_DISTANCE};
use crate::pixels::{
    channel_total, lemma_channel_total_bound, lemma_channel_total_push, mean_channel, mean_of,
};
use vstd::prelude::*;

verus! {

/// Policy for a pixel that is equally near to several centers: it goes to the
/// one with the highest index among them.
pub const LATER_CENTER_WINS_TIES: bool = true;

/// Whether a center at distance `d` takes a pixel over from the best center
/// so far, which is at distance `best`; `later_wins` says who keeps a pixel
/// that is equally near to both.
pub open spec fn takes_over(d: nat, best: nat, later_wins: bool) -> bool {
    d < best || (later_wins && d == best)
}

/// Index of the nearest to `p` among the first `n` of `centers`. Of several
/// nearest ones it is the last where `later_wins`, and the first otherwise.
pub open spec fn nearest_among(centers: Seq<Color>, p: Color, n: int, later_wins: bool) -> int
    decreases n,
{
    if n <= 1 {
        0
    } else {
        let best = nearest_among(centers, p, n - 1, later_wins);
        if takes_over(
            color_distance(centers[n - 1], p),
            color_distance(centers[best], p),
            later_wins,
        ) {
            n - 1
        } else {
            best
        }
    }
}

/// Index of the nearest center to `p`, by the given policy for ties.
pub open spec fn nearest_index(centers: Seq<Color>, p: Color, later_wins: bool) -> int {
    nearest_among(centers, p, centers.len() as int, later_wins)
}

/// Index of the center that `p` is assigned to.
pub open spec fn assigned(centers: Seq<Color>, p: Color) -> int {
    nearest_index(centers, p, LATER_CENTER_WINS_TIES)
}

/// The pixels assigned to center `c`, in the order of the pixels.
pub open spec fn cluster(pixels: Seq<Color>, centers: Seq<Color>, c: int) -> Seq<Color>
    decreases pixels.len(),
{
    if pixels.len() == 0 {
        Seq::empty()
    } else {
        let rest = cluster(pixels.drop_last(), centers, c);
        if assigned(centers, pixels.last()) == c {
            rest.push(pixels.last())
        } else {
            rest
        }
    }
}

/// Where center `c` stands after a round: at the mean of its cluster, or
/// where it stood if its cluster is empty.
pub open spec fn moved_center(pixels: Seq<Color>, centers: Seq<Color>, c: int) -> Color {
    let members = cluster(pixels, centers, c);
    if members.len() == 0 {
        centers[c]
    } else {
        mean_of(members)
    }
}

/// The centers after a round.
pub open spec fn moved_centers(pixels: Seq<Color>, centers: Seq<Color>) -> Seq<Color> {
    Seq::new(centers.len(), |c: int| moved_center(pixels, centers, c))
}

/// The number of pixels in each cluster.
pub open spec fn cluster_sizes(pixels: Seq<Color>, centers: Seq<Color>) -> Seq<u64> {
    Seq::new(centers.len(), |c: int| cluster(pixels, centers, c).len() as u64)
}

/// Sum of the distances between the first `n` centers of `new` and those of
/// `old`.
pub open spec fn movement_among(new: Seq<Color>, old: Seq<Color>, n: int) -> nat
    decreases n,
{
    if n <= 0 {
        0
    } else {
        movement_among(new, old, n - 1) + color_distance(new[n - 1], old[n - 1])
    }
}

/// Sum of the distances that the centers have moved from `old` to `new`,
/// over the indices that both have.
pub open spec fn movement(new: Seq<Color>, old: Seq<Color>) -> nat {
    movement_among(
        new,
        old,
        if new.len() <= old.len() {
            new.len() as int
        } else {
            old.len() as int
        },
    )
}

/// The nearest index is an index of a center that no center is nearer than.
/// Where later centers win ties every center behind it is further away, and
/// otherwise every center in front of it is.
pub proof fn lemma_nearest_among(centers: Seq<Color>, p: Color, n: int, later_wins: bool)
    requires
        1 <= n <= centers.len(),
    ensures
        0 <= nearest_among(centers, p, n, later_wins) < n,
        forall|j: int|
            0 <= j < n ==> color_distance(centers[nearest_among(centers, p, n, later_wins)], p)
                <= color_distance(#[trigger] centers[j], p),
        later_wins ==> forall|j: int|
            nearest_among(centers, p, n, later_wins) < j < n ==> color_distance(
                centers[nearest_among(centers, p, n, later_wins)],
                p,
            ) < color_distance(#[trigger] centers[j], p),
        !later_wins ==> forall|j: int|
            0 <= j < nearest_among(centers, p, n, later_wins) ==> color_distance(
                centers[nearest_among(centers, p, n, later_wins)],
                p,
            ) < color_distance(#[trigger] centers[j], p),
    decreases n,
{
    if n > 1 {
        lemma_nearest_among(centers, p, n - 1, later_wins);
    }
}

/// A cluster holds no more pixels than there are.
pub proof fn lemma_cluster_len(pixels: Seq<Color>, centers: Seq<Color>, c: int)
    ensures
        cluster(pixels, centers, c).len() <= pixels.len(),
    decreases pixels.len(),
{
    if pixels.len() > 0 {
        lemma_cluster_len(pixels.drop_last(), centers, c);
    }
}

/// A further pixel joins the cluster of the center that it is assigned to,
/// and no other.
pub proof fn lemma_cluster_push(pixels: Seq<Color>, centers: Seq<Color>, c: int, p: Color)
    ensures
        cluster(pixels.push(p), centers, c) == if assigned(centers, p) == c {
            cluster(pixels, centers, c).push(p)
        } else {
            cluster(pixels, centers, c)
        },
{
    assert(pixels.push(p).drop_last() =~= pixels);
}

/// The sizes of the first `n` clusters add up to the number of pixels
/// that are assigned to one of the first `n` centers.
pub proof fn lemma_sizes_among(pixels: Seq<Color>, centers: Seq<Color>, n: int)
    requires
        0 <= n <= centers.len(),
    ensures
        sizes_among(pixels, centers, n) == pixels_assigned_below(pixels, centers, n),
    decreases pixels.len(),
{
    if pixels.len() > 0 {
        let init = pixels.drop_last();
        assert(init.push(pixels.last()) =~= pixels);
        lemma_sizes_among(init, centers, n);
        lemma_sizes_among_push(init, centers, n, pixels.last());
    } else {
        assert(pixels =~= Seq::<Color>::empty());
        lemma_sizes_among_empty(centers, n);
    }
}

/// Every pixel is in the cluster of one center: the sizes of the clusters
/// add up to the number of pixels.
pub proof fn lemma_clusters_partition(pixels: Seq<Color>, centers: Seq<Color>)
    requires
        centers.len() > 0,
    ensures
        sizes_among(pixels, centers, centers.len() as int) == pixels.len(),
{
    lemma_sizes_among(pixels, centers, centers.len() as int);
    lemma_all_assigned(pixels, centers);
}

/// Sum of the sizes of the first `n` clusters.
pub open spec fn sizes_among(pixels: Seq<Color>, centers: Seq<Color>, n: int) -> nat
    decreases n,
{
    if n <= 0 {
        0
    } else {
        sizes_among(pixels, centers, n - 1) + cluster(pixels, centers, n - 1).len()
    }
}

/// Number of pixels assigned to one of the first `n` centers.
pub open spec fn pixels_assigned_below(pixels: Seq<Color>, centers: Seq<Color>, n: int) -> nat
    decreases pixels.len(),
{
    if pixels.len() == 0 {
        0
    } else {
        pixels_assigned_below(pixels.drop_last(), centers, n) + if 0 <= assigned(
            centers,
            pixels.last(),
        ) < n {
            1nat
        } else {
            0nat
        }
    }
}

/// Clusters of no pixels are empty.
proof fn lemma_sizes_among_empty(centers: Seq<Color>, n: int)
    ensures
        sizes_among(Seq::<Color>::empty(), centers, n) == 0,
    decreases n,
{
    if n > 0 {
        lemma_sizes_among_empty(centers, n - 1);
    }
}

/// A further pixel adds one to the sizes of the first `n` clusters where
/// it is assigned to one of the first `n` centers.
proof fn lemma_sizes_among_push(pixels: Seq<Color>, centers: Seq<Color>, n: int, p: Color)
    ensures
        sizes_among(pixels.push(p), centers, n) == sizes_among(pixels, centers, n) + if 0
            <= assigned(centers, p) < n {
            1nat
        } else {
            0nat
        },
    decreases n,
{
    if n > 0 {
        lemma_sizes_among_push(pixels, centers, n - 1, p);
        lemma_cluster_push(pixels, centers, n - 1, p);
    }
}

/// Every pixel is assigned to one of the centers, where there is a center.
proof fn lemma_all_assigned(pixels: Seq<Color>, centers: Seq<Color>)
    requires
        centers.len() > 0,
    ensures
        pixels_assigned_below(pixels, centers, centers.len() as int) == pixels.len(),
    decreases pixels.len(),
{
    if pixels.len() > 0 {
        lemma_all_assigned(pixels.drop_last(), centers);
        lemma_nearest_among(centers, pixels.last(), centers.len() as int, LATER_CENTER_WINS_TIES);
    }
}

/// What a round has counted and summed up for one cluster.
#[derive(Clone, Copy, Debug, PartialEq, Eq, Structural)]
pub struct ClusterStats {
    /// Number of pixels in the cluster.
    pub count: u64,
    /// Sum of their red channels.
    pub red: u128,
    /// Sum of their green channels.
    pub green: u128,
    /// Sum of their blue channels.
    pub blue: u128,
}

impl ClusterStats {
    /// The statistics are those of `members`.
    pub open spec fn describes(&self, members: Seq<Color>) -> bool {
        &&& self.count == members.len()
        &&& self.red == channel_total(members, 0)
        &&& self.green == channel_total(members, 1)
        &&& self.blue == channel_total(members, 2)
    }
}

/// What a round hands on: the moved centers, the sizes of the clusters that
/// they were computed from, and how far the centers have moved in all.
#[derive(Debug)]
pub struct Round {
    pub centers: Vec<Color>,
    pub sizes: Vec<u64>,
    pub movement: u128,
}

/// Index of the nearest of `centers` to `p`, if there is a center. Of
/// several nearest ones it is the last where `later_wins`, and the first
/// otherwise.
pub fn nearest_center(centers: &Vec<Color>, p: &Color, later_wins: bool) -> (found: Option<usize>)
    ensures
        found is Some <==> centers@.len() > 0,
        found matches Some(at) ==> {
            &&& at == nearest_index(centers@, *p, later_wins)
            &&& at < centers@.len()
            &&& forall|j: int|
                0 <= j < centers@.len() ==> color_distance(centers@[at as int], *p)
                    <= color_distance(#[trigger] centers@[j], *p)
            &&& later_wins ==> forall|j: int|
                at < j < centers@.len() ==> color_distance(centers@[at as int], *p)
                    < color_distance(#[trigger] centers@[j], *p)
            &&& !later_wins ==> forall|j: int|
                0 <= j < at ==> color_distance(centers@[at as int], *p) < color_distance(
                    #[trigger] centers@[j],
                    *p,
                )
        },
{
    if centers.len() == 0 {
        return None;
    }
    let mut best: usize = 0;
    let mut best_distance: u64 = dist(&centers[0], p);
    let mut c: usize = 1;
    while c < centers.len()
        invariant
            1 <= c <= centers.len(),
            best == nearest_among(centers@, *p, c as int, later_wins),
            best < c,
            best_distance == color_distance(centers@[best as int], *p),
        decreases centers.len() - c,
    {
        let d: u64 = dist(&centers[c], p);
        if d < best_distance || (later_wins && d == best_distance) {
            best = c;
            best_distance = d;
        }
        c = c + 1;
    }
    proof {
        lemma_nearest_among(centers@, *p, centers@.len() as int, later_wins);
    }
    Some(best)
}

/// Assigns every pixel to its nearest center and counts and sums up each
/// cluster on the way.
pub fn assign(pixels: &Vec<Color>, centers: &Vec<Color>) -> (stats: Vec<ClusterStats>)
    ensures
        stats@.len() == centers@.len(),
        forall|c: int|
            0 <= c < centers@.len() ==> (#[trigger] stats@[c]).describes(
                cluster(pixels@, centers@, c),
            ),
{
    let mut stats: Vec<ClusterStats> = Vec::new();
    let mut c: usize = 0;
    while c < centers.len()
        invariant
            c <= centers.len(),
            stats@.len() == c,
            forall|j: int|
                0 <= j < c ==> (#[trigger] stats@[j]).describes(
                    cluster(pixels@.take(0), centers@, j),
                ),
        decreases centers.len() - c,
    {
        stats.push(ClusterStats { count: 0, red: 0, green: 0, blue: 0 });
        c = c + 1;
    }
    if centers.len() == 0 {
        return stats;
    }
    let mut i: usize = 0;
    while i < pixels.len()
        invariant
            i <= pixels.len(),
            centers@.len() > 0,
            stats@.len() == centers@.len(),
            forall|j: int|
                0 <= j < centers@.len() ==> (#[trigger] stats@[j]).describes(
                    cluster(pixels@.take(i as int), centers@, j),
                ),
        decreases pixels.len() - i,
    {
        let p: Color = pixels[i];
        let at: usize = nearest_center(centers, &p, LATER_CENTER_WINS_TIES).unwrap();
        let s: ClusterStats = stats[at];
        proof {
            let done = pixels@.take(i as int);
            let members = cluster(done, centers@, at as int);
            assert(done.push(p) =~= pixels@.take(i + 1));
            assert(s.describes(members));
            lemma_cluster_len(done, centers@, at as int);
            lemma_channel_total_bound(members, 0);
            lemma_channel_total_bound(members, 1);
            lemma_channel_total_bound(members, 2);
            lemma_channel_total_push(members, p, 0);
            lemma_channel_total_push(members, p, 1);
            lemma_channel_total_push(members, p, 2);
            assert forall|j: int| 0 <= j < centers@.len() implies cluster(
                pixels@.take(i + 1),
                centers@,
                j,
            ) == if j == at {
                members.push(p)
            } else {
                cluster(done, centers@, j)
            } by {
                lemma_cluster_push(done, centers@, j, p);
            }
        }
        stats.set(
            at,
            ClusterStats {
                count: s.count + 1,
                red: s.red + p.r as u128,
                green: s.green + p.g as u128,
                blue: s.blue + p.b as u128,
            },
        );
        i = i + 1;
    }
    proof {
        assert(pixels@.take(i as int) =~= pixels@);
    }
    stats
}

/// Sum of the distances that the centers have moved from `old` to `new`,
/// over the indices that both have.
pub fn movement_of(new: &Vec<Color>, old: &Vec<Color>) -> (delta: u128)
    ensures
        delta == movement(new@, old@),
{
    let both: usize = if new.len() <= old.len() {
        new.len()
    } else {
        old.len()
    };
    let mut delta: u128 = 0;
    let mut c: usize = 0;
    while c < both
        invariant
            c <= both,
            both <= new@.len(),
            both <= old@.len(),
            delta == movement_among(new@, old@, c as int),
            delta <= c * MAX_DISTANCE,
        decreases both - c,
    {
        let d: u64 = dist(&new[c], &old[c]);
        delta = delta + d as u128;
        c = c + 1;
    }
    delta
}

/// One round: every pixel is assigned to its nearest center, each center
/// with a cluster moves to the mean of it, and each center without stays.
pub fn lloyd_round(pixels: &Vec<Color>, centers: &Vec<Color>) -> (round: Round)
    ensures
        round.centers@ == moved_centers(pixels@, centers@),
        round.sizes@ == cluster_sizes(pixels@, centers@),
        round.movement == movement(round.centers@, centers@),
{
    let stats: Vec<ClusterStats> = assign(pixels, centers);
    let mut moved: Vec<Color> = Vec::new();
    let mut sizes: Vec<u64> = Vec::new();
    let mut c: usize = 0;
    while c < centers.len()
        invariant
            c <= centers.len(),
            stats@.len() == centers@.len(),
            forall|j: int|
                0 <= j < centers@.len() ==> (#[trigger] stats@[j]).describes(
                    cluster(pixels@, centers@, j),
                ),
            moved@.len() == c,
            sizes@.len() == c,
            forall|j: int| 0 <= j < c ==> moved@[j] == moved_center(pixels@, centers@, j),
            forall|j: int|
                0 <= j < c ==> sizes@[j] == cluster(pixels@, centers@, j).len() as u64,
        decreases centers.len() - c,
    {
        let s: ClusterStats = stats[c];
        proof {
            let members = cluster(pixels@, centers@, c as int);
            assert(s.describes(members));
            lemma_channel_total_bound(members, 0);
            lemma_channel_total_bound(members, 1);
            lemma_channel_total_bound(members, 2);
        }
        if s.count == 0 {
            moved.push(centers[c]);
        } else {
            moved.push(
                Color {
                    r: mean_channel(s.red, s.count),
                    g: mean_channel(s.green, s.count),
                    b: mean_channel(s.blue, s.count),
                },
            );
        }
        sizes.push(s.count);
        c = c + 1;
    }
    proof {
        assert(moved@ =~= moved_centers(pixels@, centers@));
        assert(sizes@ =~= cluster_sizes(pixels@, centers@));
    }
    let delta: u128 = movement_of(&moved, centers);
    Round { centers: moved, sizes, movement: delta }
}

} // verus!
