//! Light maps: how point lights color the cells in view.
//!
//! Each light runs the same scan as the field of view. A cell that the light
//! reaches and the observer sees takes the light's color, dimmed by the opacity
//! in front of it and by the square of its distance.
use vstd::prelude::*;
use crate::caster::{fits, item_ok, lemma_items_upto_ok, lemma_open_items, is_open, smoothed, RPACaster, Vis, OPAQUE, R_SMOOTHING};
use crate::color::{blend, blend_spec, Color};
use crate::fov::{
    in_view, lemma_dist2_self, lemma_smoothed_pos, lemma_triangle, lemma_view_within, view_caster,
    Fov,
};
use crate::grid::{dist2, Grid, Pos};

verus! {

/// Weight of the base color, in percent, when a light level is applied to it.
pub const BLEND_PERC: u32 = 50;

/// Square of the falloff scale (0.15), in ten-thousandths.
pub const FALLOFF_SCALE_SQ: u64 = 225;

/// The falloff factor near a light, where `0.0225·d2` is below one: that value
/// raised to the power 0.11, in ten-thousandths, for each squared distance `d2`
/// from 0 to 44. The curve keeps cells next to a light from burning out.
pub open spec fn near_falloff(d2: int) -> int {
    if d2 == 0 {
        0
    } else if d2 == 1 {
        6588
    } else if d2 == 2 {
        7110
    } else if d2 == 3 {
        7434
    } else if d2 == 4 {
        7673
    } else if d2 == 5 {
        7864
    } else if d2 == 6 {
        8023
    } else if d2 == 7 {
        8160
    } else if d2 == 8 {
        8281
    } else if d2 == 9 {
        8389
    } else if d2 == 10 {
        8487
    } else if d2 == 11 {
        8576
    } else if d2 == 12 {
        8659
    } else if d2 == 13 {
        8735
    } else if d2 == 14 {
        8807
    } else if d2 == 15 {
        8874
    } else if d2 == 16 {
        8937
    } else if d2 == 17 {
        8997
    } else if d2 == 18 {
        9054
    } else if d2 == 19 {
        9108
    } else if d2 == 20 {
        9159
    } else if d2 == 21 {
        9208
    } else if d2 == 22 {
        9256
    } else if d2 == 23 {
        9301
    } else if d2 == 24 {
        9345
    } else if d2 == 25 {
        9387
    } else if d2 == 26 {
        9427
    } else if d2 == 27 {
        9467
    } else if d2 == 28 {
        9504
    } else if d2 == 29 {
        9541
    } else if d2 == 30 {
        9577
    } else if d2 == 31 {
        9611
    } else if d2 == 32 {
        9645
    } else if d2 == 33 {
        9678
    } else if d2 == 34 {
        9710
    } else if d2 == 35 {
        9741
    } else if d2 == 36 {
        9771
    } else if d2 == 37 {
        9800
    } else if d2 == 38 {
        9829
    } else if d2 == 39 {
        9857
    } else if d2 == 40 {
        9885
    } else if d2 == 41 {
        9912
    } else if d2 == 42 {
        9938
    } else if d2 == 43 {
        9964
    } else {
        9989
    }
}

/// The falloff factor at squared distance `d2`, in ten-thousandths.
pub open spec fn falloff(d2: int) -> int {
    if d2 <= 44 {
        near_falloff(d2)
    } else {
        FALLOFF_SCALE_SQ * d2
    }
}

/// One channel of a light of channel value `ch`, seen through opacity `op`, at
/// squared distance `d2`: `ch · (1 - op) / falloff`, rounded down and held to 255.
pub open spec fn lit_channel(ch: int, op: int, d2: int) -> int {
    let num = ch * (OPAQUE - op) * 100;
    let f = falloff(d2);
    if f == 0 {
        if num > 0 {
            255
        } else {
            0
        }
    } else if num / f > 255 {
        255
    } else {
        num / f
    }
}

/// The color that a light of color `c` gives a cell at squared distance `d2`
/// through opacity `op`.
pub open spec fn lit_color(c: Color, op: int, d2: int) -> Color {
    Color {
        r: lit_channel(c.r as int, op, d2) as u8,
        g: lit_channel(c.g as int, op, d2) as u8,
        b: lit_channel(c.b as int, op, d2) as u8,
    }
}

fn near_falloff_exec(d2: u128) -> (r: u128)
    requires
        d2 <= 44,
    ensures
        r == near_falloff(d2 as int),
{
    match d2 {
        0 => 0,
        1 => 6588,
        2 => 7110,
        3 => 7434,
        4 => 7673,
        5 => 7864,
        6 => 8023,
        7 => 8160,
        8 => 8281,
        9 => 8389,
        10 => 8487,
        11 => 8576,
        12 => 8659,
        13 => 8735,
        14 => 8807,
        15 => 8874,
        16 => 8937,
        17 => 8997,
        18 => 9054,
        19 => 9108,
        20 => 9159,
        21 => 9208,
        22 => 9256,
        23 => 9301,
        24 => 9345,
        25 => 9387,
        26 => 9427,
        27 => 9467,
        28 => 9504,
        29 => 9541,
        30 => 9577,
        31 => 9611,
        32 => 9645,
        33 => 9678,
        34 => 9710,
        35 => 9741,
        36 => 9771,
        37 => 9800,
        38 => 9829,
        39 => 9857,
        40 => 9885,
        41 => 9912,
        42 => 9938,
        43 => 9964,
        _ => 9989,
    }
}

fn lit_channel_exec(ch: u8, op: u32, d2: u128) -> (r: u8)
    requires
        op < OPAQUE,
        d2 <= 0x3_0000_0000_0000_0000u128,
    ensures
        r == lit_channel(ch as int, op as int, d2 as int),
{
    let keep: u128 = (OPAQUE - op) as u128;
    proof {
        assert(ch * keep <= 25500 && ch * keep * 100 <= 2550000) by (nonlinear_arith)
            requires
                ch <= 255,
                keep <= 100,
        ;
    }
    let num: u128 = ch as u128 * keep * 100;
    let scale: u128 = FALLOFF_SCALE_SQ as u128;
    assert(scale == 225);
    let f: u128 = if d2 <= 44 {
        near_falloff_exec(d2)
    } else {
        scale * d2
    };
    if f == 0 {
        if num > 0 {
            255
        } else {
            0
        }
    } else if num / f > 255 {
        255
    } else {
        (num / f) as u8
    }
}

fn lit_color_exec(c: Color, op: u32, d2: u128) -> (r: Color)
    requires
        op < OPAQUE,
        d2 <= 0x3_0000_0000_0000_0000u128,
    ensures
        r == lit_color(c, op as int, d2 as int),
{
    Color {
        r: lit_channel_exec(c.r, op, d2),
        g: lit_channel_exec(c.g, op, d2),
        b: lit_channel_exec(c.b, op, d2),
    }
}

/// Squared distance between two positions.
fn dist2_exec(a: Pos, b: Pos) -> (r: u128)
    ensures
        r == dist2(a, b),
        r <= 0x3_0000_0000_0000_0000u128,
{
    let dx: i128 = a.x as i128 - b.x as i128;
    let dy: i128 = a.y as i128 - b.y as i128;
    proof {
        assert(0 <= dx * dx <= 0x1_0000_0000 * 0x1_0000_0000 && 0 <= dy * dy <= 0x1_0000_0000
            * 0x1_0000_0000) by (nonlinear_arith)
            requires
                -0x1_0000_0000 <= dx <= 0x1_0000_0000,
                -0x1_0000_0000 <= dy <= 0x1_0000_0000,
        ;
    }
    (dx * dx + dy * dy) as u128
}

/// A light: how far it reaches, in cells, and its color.
#[derive(Debug, Clone, Copy)]
pub struct LightSource {
    pub range: u32,
    pub color: Color,
}

/// The color recorded for `p` in a list of points; a later entry wins.
pub open spec fn lookup(s: Seq<(Pos, Color)>, p: Pos) -> Option<Color>
    decreases s.len(),
{
    if s.len() == 0 {
        None
    } else if s.last().0 == p {
        Some(s.last().1)
    } else {
        lookup(s.drop_last(), p)
    }
}

/// No position occurs twice in a list of points.
pub open spec fn keys_unique(s: Seq<(Pos, Color)>) -> bool {
    forall|i: int, j: int| 0 <= i < j < s.len() ==> s[i].0 != s[j].0
}

proof fn lemma_lookup_absent(s: Seq<(Pos, Color)>, p: Pos)
    requires
        forall|j: int| 0 <= j < s.len() ==> s[j].0 != p,
    ensures
        lookup(s, p) is None,
    decreases s.len(),
{
    if s.len() > 0 {
        lemma_lookup_absent(s.drop_last(), p);
    }
}

proof fn lemma_lookup_found(s: Seq<(Pos, Color)>, j: int)
    requires
        keys_unique(s),
        0 <= j < s.len(),
    ensures
        lookup(s, s[j].0) == Some(s[j].1),
    decreases s.len(),
{
    if j < s.len() - 1 {
        assert(s.last().0 != s[j].0);
        assert(s.drop_last()[j] == s[j]);
        lemma_lookup_found(s.drop_last(), j);
    }
}

/// Where `p` stands in `s`, if it does.
fn find_pos(s: &Vec<(Pos, Color)>, p: Pos) -> (r: Option<usize>)
    ensures
        match r {
            Some(j) => j < s@.len() && s@[j as int].0 == p,
            None => forall|j: int| 0 <= j < s@.len() ==> s@[j].0 != p,
        },
{
    let mut i: usize = 0;
    while i < s.len()
        invariant
            i <= s@.len(),
            forall|j: int| 0 <= j < i ==> s@[j].0 != p,
        decreases s@.len() - i,
    {
        if s[i].0 == p {
            return Some(i);
        }
        i += 1;
    }
    None
}

/// Records color `c` for `p`, replacing any color it had.
fn put(s: &mut Vec<(Pos, Color)>, p: Pos, c: Color)
    requires
        keys_unique(old(s)@),
    ensures
        keys_unique(final(s)@),
        forall|q: Pos|
            #[trigger] lookup(final(s)@, q) == if q == p {
                Some(c)
            } else {
                lookup(old(s)@, q)
            },
{
    let ghost before = s@;
    match find_pos(s, p) {
        Some(j) => {
            s.set(j, (p, c));
            proof {
                assert forall|q: Pos| #[trigger] lookup(s@, q) == if q == p {
                    Some(c)
                } else {
                    lookup(before, q)
                } by {
                    if q == p {
                        lemma_lookup_found(s@, j as int);
                    } else if exists|t: int| 0 <= t < before.len() && before[t].0 == q {
                        let t = choose|t: int| 0 <= t < before.len() && before[t].0 == q;
                        lemma_lookup_found(before, t);
                        assert(s@[t] == before[t]);
                        lemma_lookup_found(s@, t);
                    } else {
                        lemma_lookup_absent(before, q);
                        lemma_lookup_absent(s@, q);
                    }
                }
            }
        },
        None => {
            s.push((p, c));
            proof {
                assert(s@.drop_last() =~= before);
            }
        },
    }
}

/// The color that the scan's first `n` items give `p`: the last item at `p`
/// that lies in the field of view `fov_points` and is not fully occluded.
pub open spec fn lit_upto(
    items: Seq<(Pos, u32)>,
    n: nat,
    fov_points: Seq<Pos>,
    from: Pos,
    color: Color,
    p: Pos,
) -> Option<Color>
    decreases n,
{
    if n == 0 {
        None
    } else {
        let (q, op) = items[n - 1];
        if q == p && fov_points.contains(q) && op < OPAQUE {
            Some(lit_color(color, op as int, dist2(from, q)))
        } else {
            lit_upto(items, (n - 1) as nat, fov_points, from, color, p)
        }
    }
}

/// The color that a light at `from` gives `p`, seen only within `fov_points`.
pub open spec fn source_light(
    grid: Grid<u32>,
    from: Pos,
    fov_points: Seq<Pos>,
    source: LightSource,
    p: Pos,
) -> Option<Color> {
    let items = view_caster(from, source.range).items(grid);
    lit_upto(items, items.len(), fov_points, from, source.color, p)
}

/// A light color that arrives at a cell, merged into what it already had.
pub open spec fn merge_light(prev: Option<Color>, new: Option<Color>) -> Option<Color> {
    match new {
        None => prev,
        Some(c) => match prev {
            None => Some(c),
            Some(a) => Some(blend_spec(a, c, 50)),
        },
    }
}

/// The light that the first `n` sources give `p`, within the field of view `fov`.
pub open spec fn merged_light(
    grid: Grid<u32>,
    fov: Fov,
    sources: Seq<(Pos, LightSource)>,
    n: nat,
    p: Pos,
) -> Option<Color>
    decreases n,
{
    if n == 0 {
        None
    } else {
        let prev = merged_light(grid, fov, sources, (n - 1) as nat, p);
        let (at, source) = sources[n - 1];
        if !fov.reaches(at, smoothed(source.range as int)) {
            prev
        } else {
            merge_light(prev, source_light(grid, at, fov.points@, source, p))
        }
    }
}

/// The light color of each lit cell.
pub struct LightMap {
    pub points: Vec<(Pos, Color)>,
}

impl LightMap {
    /// Each cell is listed once.
    pub open spec fn wf(&self) -> bool {
        keys_unique(self.points@)
    }

    /// The light color of `p`, if it is lit.
    pub open spec fn light_at(&self, p: Pos) -> Option<Color> {
        lookup(self.points@, p)
    }

    /// The light of a single source at `from`, on the cells of `fov`. Each cell
    /// of `fov` that the light's scan reaches with less than full opacity in front
    /// of it takes `lit_color`: the light's color, times the share of light let
    /// through, over the falloff at the cell's squared distance, held to 255.
    /// Where the scan reaches a cell twice, the later reach counts.
    pub fn new(grid: &Grid<u32>, from: Pos, fov: &Fov, source: LightSource) -> (r: LightMap)
        requires
            fits(from, source.range as int),
            fov.wf(),
        ensures
            r.wf(),
            forall|p: Pos| #[trigger] r.light_at(p) == source_light(*grid, from, fov.points@, source, p),
            forall|p: Pos| #[trigger] r.light_at(p) is Some ==> fov.points@.contains(p),
    {
        let LightSource { range, color } = source;
        let r_cutoff: u64 = 100 * range as u64 + R_SMOOTHING;
        let caster = RPACaster { from, radius: range, r_cutoff, vis: Vis::CenterPlus };
        let items = caster.cast(grid);
        let ghost spec_items = view_caster(from, range).items(*grid);
        assert(items@ == spec_items);
        let mut points: Vec<(Pos, Color)> = Vec::new();
        let mut i: usize = 0;
        while i < items.len()
            invariant
                i <= items@.len(),
                items@ == spec_items,
                fov.wf(),
                keys_unique(points@),
                forall|p: Pos|
                    #[trigger] lookup(points@, p) == lit_upto(
                        items@,
                        i as nat,
                        fov.points@,
                        from,
                        color,
                        p,
                    ),
            decreases items@.len() - i,
        {
            let (p, op) = items[i];
            if op < OPAQUE && fov.contains(p) {
                let d2 = dist2_exec(from, p);
                let c = lit_color_exec(color, op, d2);
                put(&mut points, p, c);
            }
            assert forall|q: Pos| #[trigger] lookup(points@, q) == lit_upto(
                items@,
                (i + 1) as nat,
                fov.points@,
                from,
                color,
                q,
            ) by {}
            i += 1;
        }
        proof {
            assert forall|p: Pos| #[trigger] lookup(points@, p) is Some implies fov.points@.contains(p) by {
                lemma_source_light_in_view(*grid, from, fov.points@, source, p);
            }
        }
        LightMap { points }
    }

    /// The light of all `sources` on the cells of `fov`. A source that cannot reach
    /// the field of view is skipped; where two sources light a cell, their colors
    /// are blended half and half, in the order of `sources`.
    pub fn from_sources(grid: &Grid<u32>, fov: &Fov, sources: &Vec<(Pos, LightSource)>) -> (r:
        LightMap)
        requires
            fov.wf(),
            forall|i: int| 0 <= i < sources@.len() ==> fits(sources@[i].0, sources@[i].1.range as int),
        ensures
            r.wf(),
            forall|p: Pos| #[trigger] r.light_at(p) == merged_light(*grid, *fov, sources@, sources@.len(), p),
            forall|p: Pos| #[trigger] r.light_at(p) is Some ==> fov.points@.contains(p),
    {
        let mut points: Vec<(Pos, Color)> = Vec::new();
        let mut i: usize = 0;
        while i < sources.len()
            invariant
                i <= sources@.len(),
                fov.wf(),
                forall|t: int| 0 <= t < sources@.len() ==> fits(sources@[t].0, sources@[t].1.range as int),
                keys_unique(points@),
                forall|p: Pos| #[trigger] lookup(points@, p) == merged_light(*grid, *fov, sources@, i as nat, p),
            decreases sources@.len() - i,
        {
            let (from, source) = sources[i];
            if fov.could_contain(from, source.range as u64 * 100 + R_SMOOTHING) {
                let lm = LightMap::new(grid, from, fov, source);
                let ghost before = points@;
                let mut j: usize = 0;
                while j < lm.points.len()
                    invariant
                        j <= lm.points@.len(),
                        keys_unique(lm.points@),
                        keys_unique(points@),
                        forall|p: Pos| #[trigger] lookup(points@, p) == if exists|t: int|
                            0 <= t < j && #[trigger] lm.points@[t].0 == p {
                            merge_light(lookup(before, p), lookup(lm.points@, p))
                        } else {
                            lookup(before, p)
                        },
                    decreases lm.points@.len() - j,
                {
                    let (p, c) = lm.points[j];
                    proof {
                        lemma_lookup_found(lm.points@, j as int);
                    }
                    let ghost mid = points@;
                    let merged = match find_pos(&points, p) {
                        Some(t) => {
                            proof {
                                lemma_lookup_found(points@, t as int);
                            }
                            blend(points[t].1, c, 50)
                        },
                        None => {
                            proof {
                                lemma_lookup_absent(points@, p);
                            }
                            c
                        },
                    };
                    put(&mut points, p, merged);
                    proof {
                        assert(!exists|t: int| 0 <= t < j && #[trigger] lm.points@[t].0 == p);
                        assert forall|q: Pos| #[trigger] lookup(points@, q) == if exists|t: int|
                            0 <= t < j + 1 && #[trigger] lm.points@[t].0 == q {
                            merge_light(lookup(before, q), lookup(lm.points@, q))
                        } else {
                            lookup(before, q)
                        } by {
                            if q == p {
                                assert(lm.points@[j as int].0 == q);
                            } else if exists|t: int| 0 <= t < j + 1 && #[trigger] lm.points@[t].0 == q {
                                let t = choose|t: int| 0 <= t < j + 1 && #[trigger] lm.points@[t].0 == q;
                                assert(t < j);
                            }
                        }
                    }
                    j += 1;
                }
                proof {
                    assert(fov.reaches(from, smoothed(source.range as int)));
                    assert((from, source) == sources@[i as int]);
                    assert forall|p: Pos| #[trigger] lookup(points@, p) == merged_light(*grid, *fov, sources@, (i + 1) as nat, p) by {
                        assert(lookup(before, p) == merged_light(*grid, *fov, sources@, i as nat, p));
                        assert(lm.light_at(p) == source_light(*grid, from, fov.points@, source, p));
                        if !exists|t: int| 0 <= t < lm.points@.len() && #[trigger] lm.points@[t].0 == p {
                            lemma_lookup_absent(lm.points@, p);
                        }
                    }
                }
            }
            i += 1;
        }
        proof {
            assert forall|p: Pos| #[trigger] lookup(points@, p) is Some implies fov.points@.contains(p) by {
                lemma_merged_light_in_view(*grid, *fov, sources@, sources@.len(), p);
            }
        }
        LightMap { points }
    }

    /// The light color of `p`, if it is lit.
    pub fn get(&self, p: Pos) -> (r: Option<Color>)
        requires
            self.wf(),
        ensures
            r == self.light_at(p),
    {
        match find_pos(&self.points, p) {
            Some(j) => {
                proof {
                    lemma_lookup_found(self.points@, j as int);
                }
                Some(self.points[j].1)
            },
            None => {
                proof {
                    lemma_lookup_absent(self.points@, p);
                }
                None
            },
        }
    }

    /// `color` as lit at `p`, or `None` when no light reaches `p`.
    pub fn apply_light_level(&self, p: Pos, color: Color) -> (r: Option<Color>)
        requires
            self.wf(),
        ensures
            r == match self.light_at(p) {
                None => None,
                Some(light) => Some(blend_spec(color, light, BLEND_PERC as int)),
            },
    {
        match self.get(p) {
            None => None,
            Some(light) => Some(blend(color, light, BLEND_PERC)),
        }
    }
}

proof fn lemma_lit_upto_in_view(
    items: Seq<(Pos, u32)>,
    n: nat,
    fov_points: Seq<Pos>,
    from: Pos,
    color: Color,
    p: Pos,
)
    ensures
        lit_upto(items, n, fov_points, from, color, p) is Some ==> fov_points.contains(p),
    decreases n,
{
    if n > 0 {
        lemma_lit_upto_in_view(items, (n - 1) as nat, fov_points, from, color, p);
    }
}

/// A single light lights only cells of the field of view it is given.
pub proof fn lemma_source_light_in_view(
    grid: Grid<u32>,
    from: Pos,
    fov_points: Seq<Pos>,
    source: LightSource,
    p: Pos,
)
    ensures
        source_light(grid, from, fov_points, source, p) is Some ==> fov_points.contains(p),
{
    let items = view_caster(from, source.range).items(grid);
    lemma_lit_upto_in_view(items, items.len(), fov_points, from, source.color, p);
}

/// The merged light of any number of sources lights only cells of the field of view.
pub proof fn lemma_merged_light_in_view(
    grid: Grid<u32>,
    fov: Fov,
    sources: Seq<(Pos, LightSource)>,
    n: nat,
    p: Pos,
)
    ensures
        merged_light(grid, fov, sources, n, p) is Some ==> fov.points@.contains(p),
    decreases n,
{
    if n > 0 {
        lemma_merged_light_in_view(grid, fov, sources, (n - 1) as nat, p);
        let (at, source) = sources[n - 1];
        lemma_source_light_in_view(grid, at, fov.points@, source, p);
    }
}

/// Sum of the three channels.
pub open spec fn brightness(c: Color) -> int {
    c.r + c.g + c.b
}

proof fn lemma_falloff_nonneg(d2: int)
    requires
        0 <= d2,
    ensures
        0 <= falloff(d2),
{
}

proof fn lemma_falloff_monotone(a: int, b: int)
    requires
        0 <= a <= b,
    ensures
        falloff(a) <= falloff(b),
    decreases b - a,
{
    if a < b {
        lemma_falloff_monotone(a, b - 1);
        if b - 1 < 44 {
            assert(near_falloff(b - 1) <= near_falloff(b));
        }
    }
}

proof fn lemma_lit_channel_monotone(ch: int, op: int, a: int, b: int)
    requires
        0 <= ch <= 255,
        0 <= op < OPAQUE,
        0 <= a <= b,
    ensures
        lit_channel(ch, op, b) <= lit_channel(ch, op, a),
        0 <= lit_channel(ch, op, b),
{
    let num = ch * (OPAQUE - op) * 100;
    assert(0 <= num) by (nonlinear_arith)
        requires
            num == ch * (OPAQUE - op) * 100,
            0 <= ch,
            op < OPAQUE,
    ;
    lemma_falloff_monotone(a, b);
    lemma_falloff_nonneg(a);
    let fa = falloff(a);
    let fb = falloff(b);
    if fb > 0 {
        vstd::arithmetic::div_mod::lemma_div_pos_is_pos(num, fb);
    }
    if fa > 0 {
        vstd::arithmetic::div_mod::lemma_div_is_ordered_by_denominator(num, fa, fb);
    } else if num == 0 {
        if fb > 0 {
            assert(num / fb == 0);
        }
    }
}

/// A light dims, channel by channel and so in brightness, as the squared distance
/// from it grows, whatever its color and the opacity in front of the cell.
pub proof fn lemma_light_falloff(c: Color, op: int, a: int, b: int)
    requires
        0 <= op < OPAQUE,
        0 <= a <= b,
    ensures
        lit_color(c, op, b).r <= lit_color(c, op, a).r,
        lit_color(c, op, b).g <= lit_color(c, op, a).g,
        lit_color(c, op, b).b <= lit_color(c, op, a).b,
        brightness(lit_color(c, op, b)) <= brightness(lit_color(c, op, a)),
{
    lemma_lit_channel_monotone(c.r as int, op, a, b);
    lemma_lit_channel_monotone(c.g as int, op, a, b);
    lemma_lit_channel_monotone(c.b as int, op, a, b);
    lemma_lit_channel_monotone(c.r as int, op, a, a);
    lemma_lit_channel_monotone(c.g as int, op, a, a);
    lemma_lit_channel_monotone(c.b as int, op, a, a);
}

proof fn lemma_lit_upto_item(
    items: Seq<(Pos, u32)>,
    n: nat,
    fov_points: Seq<Pos>,
    from: Pos,
    color: Color,
    p: Pos,
)
    requires
        n <= items.len(),
    ensures
        lit_upto(items, n, fov_points, from, color, p) is Some ==> exists|j: int|
            0 <= j < n && (#[trigger] items[j]).0 == p,
    decreases n,
{
    if n > 0 {
        lemma_lit_upto_item(items, (n - 1) as nat, fov_points, from, color, p);
        if items[n - 1].0 == p {
            assert((items[n - 1]).0 == p);
        }
    }
}

/// When `could_contain` turns a light down, that light reaches no cell of the
/// field of view: skipping it never loses light.
pub proof fn lemma_could_contain_sound(
    grid: Grid<u32>,
    fov: Fov,
    range: u32,
    at: Pos,
    source: LightSource,
    p: Pos,
)
    requires
        fov.is_view_of(grid, fov.from, range),
        fits(fov.from, range as int),
        fits(at, source.range as int),
        !fov.reaches(at, smoothed(source.range as int)),
    ensures
        source_light(grid, at, fov.points@, source, p) is None,
{
    let lc = view_caster(at, source.range);
    let items = lc.items(grid);
    let big_c = smoothed(range as int);
    let big_l = smoothed(source.range as int);
    assert(lc.r_cutoff == big_l);
    if source_light(grid, at, fov.points@, source, p) is Some {
        lemma_lit_upto_in_view(items, items.len(), fov.points@, at, source.color, p);
        assert(fov.points@.contains(p));
        assert(in_view(grid, fov.from, range, p));
        lemma_view_within(grid, fov.from, range, p);
        lemma_lit_upto_item(items, items.len(), fov.points@, at, source.color, p);
        let j = choose|j: int| 0 <= j < items.len() && (#[trigger] items[j]).0 == p;
        lemma_items_upto_ok(lc, grid, 8);
        assert(item_ok(lc, grid, items[j].0));
        if p == at {
            lemma_dist2_self(at);
            lemma_smoothed_pos(source.range as int);
        }
        assert(10000 * dist2(at, p) < big_l * big_l);
        assert((at.x - p.x) * (at.x - p.x) == (p.x - at.x) * (p.x - at.x) && (at.y - p.y) * (at.y
            - p.y) == (p.y - at.y) * (p.y - at.y)) by (nonlinear_arith);
        lemma_triangle(
            fov.from.x - p.x,
            fov.from.y - p.y,
            p.x - at.x,
            p.y - at.y,
            big_c,
            big_l,
        );
        assert(fov.from.x - p.x + (p.x - at.x) == fov.from.x - at.x);
        assert(fov.from.y - p.y + (p.y - at.y) == fov.from.y - at.y);
        assert(10000 * dist2(fov.from, at) < (big_c + big_l) * (big_c + big_l));
        assert(fov.r_cutoff == big_c);
    }
}

proof fn lemma_lit_upto_value(
    items: Seq<(Pos, u32)>,
    n: nat,
    fov_points: Seq<Pos>,
    from: Pos,
    color: Color,
    p: Pos,
)
    requires
        n <= items.len(),
        forall|t: int| 0 <= t < items.len() ==> (#[trigger] items[t]).1 == 0,
    ensures
        lit_upto(items, n, fov_points, from, color, p) is Some ==> lit_upto(
            items,
            n,
            fov_points,
            from,
            color,
            p,
        ) == Some(lit_color(color, 0, dist2(from, p))),
    decreases n,
{
    if n > 0 {
        lemma_lit_upto_value(items, (n - 1) as nat, fov_points, from, color, p);
        assert(items[n - 1].1 == 0);
    }
}

/// On a grid where nothing blocks light, a single light gives each lit cell its
/// color dimmed by distance alone, so a cell no nearer to the light than another
/// is no brighter.
pub proof fn lemma_open_light_falloff(
    grid: Grid<u32>,
    at: Pos,
    fov_points: Seq<Pos>,
    source: LightSource,
    p: Pos,
    q: Pos,
)
    requires
        is_open(grid),
        dist2(at, p) <= dist2(at, q),
        source_light(grid, at, fov_points, source, p) is Some,
        source_light(grid, at, fov_points, source, q) is Some,
    ensures
        source_light(grid, at, fov_points, source, p) == Some(
            lit_color(source.color, 0, dist2(at, p)),
        ),
        source_light(grid, at, fov_points, source, q) == Some(
            lit_color(source.color, 0, dist2(at, q)),
        ),
        brightness(source_light(grid, at, fov_points, source, q).unwrap()) <= brightness(
            source_light(grid, at, fov_points, source, p).unwrap(),
        ),
{
    let c = view_caster(at, source.range);
    let items = c.items(grid);
    lemma_open_items(c, grid, 8);
    lemma_lit_upto_value(items, items.len(), fov_points, at, source.color, p);
    lemma_lit_upto_value(items, items.len(), fov_points, at, source.color, q);
    assert(0 <= dist2(at, p)) by (nonlinear_arith);
    lemma_light_falloff(source.color, 0, dist2(at, p), dist2(at, q));
}

proof fn lemma_lit_channel_opacity(ch: int, op1: int, op2: int, d2: int)
    requires
        0 <= ch <= 255,
        0 <= op1 <= op2 < OPAQUE,
        0 <= d2,
    ensures
        lit_channel(ch, op2, d2) <= lit_channel(ch, op1, d2),
{
    let n1 = ch * (OPAQUE - op1) * 100;
    let n2 = ch * (OPAQUE - op2) * 100;
    assert(0 <= n2 <= n1) by (nonlinear_arith)
        requires
            n1 == ch * (OPAQUE - op1) * 100,
            n2 == ch * (OPAQUE - op2) * 100,
            0 <= ch,
            op1 <= op2 < OPAQUE,
    ;
    lemma_falloff_nonneg(d2);
    let f = falloff(d2);
    if f > 0 {
        vstd::arithmetic::div_mod::lemma_div_is_ordered(n2, n1, f);
    }
}

/// More opacity in front of a cell never gives it more light: each channel, and
/// so the brightness, is at most what the same light gives through less opacity.
pub proof fn lemma_light_dims_with_opacity(c: Color, op1: int, op2: int, d2: int)
    requires
        0 <= op1 <= op2 < OPAQUE,
        0 <= d2,
    ensures
        lit_color(c, op2, d2).r <= lit_color(c, op1, d2).r,
        lit_color(c, op2, d2).g <= lit_color(c, op1, d2).g,
        lit_color(c, op2, d2).b <= lit_color(c, op1, d2).b,
        brightness(lit_color(c, op2, d2)) <= brightness(lit_color(c, op1, d2)),
{
    lemma_lit_channel_opacity(c.r as int, op1, op2, d2);
    lemma_lit_channel_opacity(c.g as int, op1, op2, d2);
    lemma_lit_channel_opacity(c.b as int, op1, op2, d2);
    lemma_lit_channel_monotone(c.r as int, op1, d2, d2);
    lemma_lit_channel_monotone(c.g as int, op1, d2, d2);
    lemma_lit_channel_monotone(c.b as int, op1, d2, d2);
    lemma_lit_channel_monotone(c.r as int, op2, d2, d2);
    lemma_lit_channel_monotone(c.g as int, op2, d2, d2);
    lemma_lit_channel_monotone(c.b as int, op2, d2, d2);
}

} // verus!
