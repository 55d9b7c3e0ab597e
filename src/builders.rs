//! Inputs and helpers of map generation.
use vstd::prelude::*;
use crate::grid::{dist2, Pos};

verus! {

/// Options for building a map.
#[derive(Debug, Copy, Clone)]
pub struct BuildConfig {
    /// Whether to place creatures on the new map.
    pub populated: bool,
}

impl Default for BuildConfig {
    fn default() -> (r: Self)
        ensures
            r.populated,
    {
        BuildConfig { populated: true }
    }
}

/// Side or point of a map from which to look for a place to start.
#[derive(Debug)]
pub enum StartingPosition {
    North,
    South,
    East,
    West,
    Center,
}

/// Index of the seed nearest to `p` among the first `n` seeds; on a tie the
/// earlier seed wins.
pub open spec fn nearest_upto(seeds: Seq<Pos>, p: Pos, n: int) -> int
    decreases n,
{
    if n <= 1 {
        0
    } else {
        let best = nearest_upto(seeds, p, n - 1);
        if dist2(seeds[n - 1], p) < dist2(seeds[best], p) {
            n - 1
        } else {
            best
        }
    }
}

/// Index of the seed nearest to `p`; on a tie the earlier seed wins.
pub open spec fn nearest_seed(seeds: Seq<Pos>, p: Pos) -> int {
    nearest_upto(seeds, p, seeds.len() as int)
}

proof fn lemma_nearest_upto_bounds(seeds: Seq<Pos>, p: Pos, n: int)
    requires
        1 <= n,
    ensures
        0 <= nearest_upto(seeds, p, n) < n,
    decreases n,
{
    if n > 1 {
        lemma_nearest_upto_bounds(seeds, p, n - 1);
    }
}

fn nearest_seed_exec(seeds: &[Pos], p: Pos) -> (r: usize)
    requires
        seeds@.len() > 0,
    ensures
        r == nearest_seed(seeds@, p),
        r < seeds@.len(),
{
    let mut best: usize = 0;
    let mut best_d: u128 = dist2_exec(seeds[0], p);
    let mut i: usize = 1;
    while i < seeds.len()
        invariant
            1 <= i <= seeds@.len(),
            best == nearest_upto(seeds@, p, i as int),
            best < i,
            best_d == dist2(seeds@[best as int], p),
        decreases seeds@.len() - i,
    {
        let d = dist2_exec(seeds[i], p);
        if d < best_d {
            best = i;
            best_d = d;
        }
        i += 1;
    }
    best
}

/// Squared distance between two positions.
fn dist2_exec(a: Pos, b: Pos) -> (r: u128)
    ensures
        r == dist2(a, b),
{
    let dx: i128 = a.x as i128 - b.x as i128;
    let dy: i128 = a.y as i128 - b.y as i128;
    proof {
        assert(0 <= dx * dx <= 0x1_0000_0000 * 0x1_0000_0000 && 0 <= dy * dy <= 0x1_0000_0000
            * 0x1_0000_0000) by (nonlinear_arith)
            requires
                -0x1_0000_0000 <= dx <= 0x1_0000_0000,
                -0x1_0000_0000 <= dy <= 0x1_0000_0000,
        ;
    }
    (dx * dx + dy * dy) as u128
}

/// Splits `points` into the Voronoi regions of `seeds`: region `i` holds, in
/// their order, the points whose nearest seed is seed `i`.
pub fn voronoi_regions_from_seeds(seeds: &[Pos], points: Vec<Pos>) -> (regions: Vec<Vec<Pos>>)
    requires
        seeds@.len() > 0 || points@.len() == 0,
    ensures
        regions@.len() == seeds@.len(),
        forall|r: int|
            0 <= r < seeds@.len() ==> (#[trigger] regions@[r])@ == points@.filter(
                |q: Pos| nearest_seed(seeds@, q) == r,
            ),
{
    let mut regions: Vec<Vec<Pos>> = Vec::new();
    while regions.len() < seeds.len()
        invariant
            regions@.len() <= seeds@.len(),
            forall|r: int| 0 <= r < regions@.len() ==> (#[trigger] regions@[r])@ == Seq::<Pos>::empty(),
        decreases seeds@.len() - regions@.len(),
    {
        regions.push(Vec::new());
    }
    proof {
        assert(points@.take(0) =~= Seq::<Pos>::empty());
        assert forall|r: int| 0 <= r < seeds@.len() implies (#[trigger] regions@[r])@
            == points@.take(0).filter(|q: Pos| nearest_seed(seeds@, q) == r) by {
            reveal(Seq::filter);
        }
    }
    let mut i: usize = 0;
    while i < points.len()
        invariant
            i <= points@.len(),
            seeds@.len() > 0 || points@.len() == 0,
            regions@.len() == seeds@.len(),
            forall|r: int|
                0 <= r < seeds@.len() ==> (#[trigger] regions@[r])@ == points@.take(i as int).filter(
                    |q: Pos| nearest_seed(seeds@, q) == r,
                ),
        decreases points@.len() - i,
    {
        let p = points[i];
        let best = nearest_seed_exec(seeds, p);
        let ghost before = regions@;
        let mut region = regions.remove(best);
        region.push(p);
        regions.insert(best, region);
        proof {
            assert(points@.take(i + 1) =~= points@.take(i as int).push(p));
            assert forall|r: int| 0 <= r < seeds@.len() implies (#[trigger] regions@[r])@
                == points@.take(i + 1).filter(|q: Pos| nearest_seed(seeds@, q) == r) by {
                points@.take(i as int).lemma_filter_push(p, |q: Pos| nearest_seed(seeds@, q) == r);
                if r == best {
                    assert(regions@[r]@ == before[r]@.push(p));
                } else {
                    assert(regions@[r] == before[r]);
                }
            }
        }
        i += 1;
    }
    assert(points@.take(points@.len() as int) =~= points@);
    regions
}

} // verus!
