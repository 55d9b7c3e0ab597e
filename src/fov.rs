//! The cells an observer can see.
use vstd::prelude::*;
use crate::caster::{
    admitted, cand_ok, covers, fits, is_open, item_ok, lemma_cands_index, lemma_cell_pos,
    lemma_center_blocked, lemma_items_upto_has, lemma_items_upto_ok, lemma_items_upto_source,
    lemma_obs_grow, lemma_octant_cands_ok, lemma_octant_rows_sorted, lemma_octants_cover,
    lemma_open_items, lemma_partial_items, lemma_scan_has, lemma_scan_provenance, lemma_shade_bounded, occlusion,
    octant_cands, octant_offset, only_partial_at, smoothed, within_cutoff, Angle, Obstruction, RPACaster, Vis,
    OPAQUE, R_SMOOTHING,
};
use crate::grid::{dist2, Grid, Pos};

verus! {

/// The radius of an observer's field of view.
#[derive(Debug, Clone, Copy)]
pub struct FovRange(pub u32);

/// The scan that an observer at `from` with the given range makes.
pub open spec fn view_caster(from: Pos, range: u32) -> RPACaster {
    RPACaster { from, radius: range, r_cutoff: smoothed(range as int) as u64, vis: Vis::CenterPlus }
}

/// Whether an observer at `from` with the given range sees `p`: the observer's own
/// cell is always seen, and any other cell is seen when the scan reaches it with
/// less than full opacity in front of it.
pub open spec fn in_view(grid: Grid<u32>, from: Pos, range: u32, p: Pos) -> bool {
    let items = view_caster(from, range).items(grid);
    p == from || exists|i: int| 0 <= i < items.len() && #[trigger] items[i].0 == p && items[i].1 < OPAQUE
}

/// A distinct number for each position.
pub open spec fn pos_key(p: Pos) -> int {
    (p.x + 0x8000_0000) * 0x1_0000_0000 + (p.y + 0x8000_0000)
}

proof fn lemma_pos_key_injective(p: Pos, q: Pos)
    requires
        pos_key(p) == pos_key(q),
    ensures
        p == q,
{
    let a1 = p.x + 0x8000_0000;
    let a2 = q.x + 0x8000_0000;
    let b1 = p.y + 0x8000_0000;
    let b2 = q.y + 0x8000_0000;
    assert(a1 == a2 && b1 == b2) by (nonlinear_arith)
        requires
            a1 * 0x1_0000_0000 + b1 == a2 * 0x1_0000_0000 + b2,
            0 <= b1 < 0x1_0000_0000,
            0 <= b2 < 0x1_0000_0000,
    ;
}

fn pos_key_exec(p: Pos) -> (r: u64)
    ensures
        r == pos_key(p),
{
    let a: u64 = (p.x as i64 + 0x8000_0000) as u64;
    let b: u64 = (p.y as i64 + 0x8000_0000) as u64;
    proof {
        assert(a * 0x1_0000_0000 <= 0xffff_ffff * 0x1_0000_0000) by (nonlinear_arith)
            requires
                a <= 0xffff_ffff,
        ;
    }
    a * 0x1_0000_0000 + b
}

/// The cells that an observer can see.
pub struct Fov {
    pub points: Vec<Pos>,
    pub from: Pos,
    /// Smoothed radius of the scan, in hundredths of a cell.
    pub r_cutoff: u64,
    /// The key (`pos_key`) of each point, for lookups.
    pub index: std::collections::HashSet<u64>,
}

impl Fov {
    /// The index holds the key of each point and of nothing else.
    pub open spec fn wf(&self) -> bool {
        forall|p: Pos| #[trigger] self.points@.contains(p) <==> self.index@.contains(pos_key(p) as u64)
    }

    /// `self` is the field of view of an observer at `from` with the given range.
    pub open spec fn is_view_of(&self, grid: Grid<u32>, from: Pos, range: u32) -> bool {
        &&& self.wf()
        &&& self.from == from
        &&& self.r_cutoff == smoothed(range as int)
        &&& self.points@.no_duplicates()
        &&& forall|p: Pos| #[trigger] self.points@.contains(p) <==> in_view(grid, from, range, p)
    }

    /// Whether a light within `r` hundredths of a cell of `p` could reach the full
    /// radius of this field of view.
    pub open spec fn reaches(&self, p: Pos, r: int) -> bool {
        10000 * dist2(self.from, p) <= (self.r_cutoff + r) * (self.r_cutoff + r)
    }

    /// The field of view of an observer at `from` on `grid`, whose cells hold
    /// opacities in hundredths. It scans every octant up to the range, smoothed by
    /// `R_SMOOTHING`, under the `CenterPlus` policy, and keeps each cell with less
    /// than full opacity in front of it, and the observer's own cell.
    pub fn new(grid: &Grid<u32>, from: Pos, range: FovRange) -> (r: Fov)
        requires
            fits(from, range.0 as int),
        ensures
            r.is_view_of(*grid, from, range.0),
            r.points@.contains(from),
    {
        let FovRange(range) = range;
        let r_cutoff: u64 = 100 * range as u64 + R_SMOOTHING;
        let caster = RPACaster { from, radius: range, r_cutoff, vis: Vis::CenterPlus };
        let items = caster.cast(grid);
        let ghost spec_items = view_caster(from, range).items(*grid);
        assert(items@ == spec_items);
        broadcast use vstd::std_specs::hash::group_hash_axioms;

        let mut points: Vec<Pos> = Vec::new();
        let mut seen: std::collections::HashSet<u64> = std::collections::HashSet::new();
        points.push(from);
        seen.insert(pos_key_exec(from));
        assert forall|p: Pos| #[trigger] points@.contains(p) <==> p == from by {
            if p == from {
                assert(points@[0] == p);
            }
        }
        assert forall|k: u64| #[trigger] seen@.contains(k) implies exists|p: Pos|
            #[trigger] points@.contains(p) && pos_key(p) == k by {
            assert(points@.contains(from) && pos_key(from) == k);
        }
        let mut i: usize = 0;
        while i < items.len()
            invariant
                i <= items@.len(),
                items@ == spec_items,
                points@.no_duplicates(),
                forall|p: Pos| #[trigger] points@.contains(p) ==> seen@.contains(pos_key(p) as u64),
                forall|k: u64|
                    #[trigger] seen@.contains(k) ==> exists|p: Pos|
                        #[trigger] points@.contains(p) && pos_key(p) == k,
                forall|p: Pos|
                    #[trigger] points@.contains(p) <==> (p == from || exists|j: int|
                        0 <= j < i && #[trigger] items@[j].0 == p && items@[j].1 < OPAQUE),
            decreases items@.len() - i,
        {
            let (p, op) = items[i];
            let ghost before = points@;
            let ghost seen_before = seen@;
            let key = pos_key_exec(p);
            if op < OPAQUE && seen.insert(key) {
                proof {
                    if before.contains(p) {
                        assert(seen_before.contains(key));
                    }
                }
                points.push(p);
                proof {
                    assert(points@ == before.push(p));
                    assert forall|q: Pos| #[trigger] points@.contains(q) <==> (before.contains(q) || q == p) by {
                        if q == p {
                            assert(points@[before.len() as int] == q);
                        }
                        if points@.contains(q) {
                            let t = choose|t: int| 0 <= t < points@.len() && points@[t] == q;
                            if t < before.len() {
                                assert(before[t] == q);
                            }
                        }
                        if before.contains(q) {
                            let t = choose|t: int| 0 <= t < before.len() && before[t] == q;
                            assert(points@[t] == q);
                        }
                    }
                    assert forall|k: u64| #[trigger] seen@.contains(k) implies exists|q: Pos|
                        #[trigger] points@.contains(q) && pos_key(q) == k by {
                        if k != key {
                            assert(seen_before.contains(k));
                            let q = choose|q: Pos| #[trigger] before.contains(q) && pos_key(q) == k;
                            assert(points@.contains(q) && pos_key(q) == k);
                        } else {
                            assert(points@.contains(p) && pos_key(p) == k);
                        }
                    }
                }
            } else if op < OPAQUE {
                proof {
                    assert(seen_before.contains(key));
                    let q = choose|q: Pos| #[trigger] before.contains(q) && pos_key(q) == key;
                    lemma_pos_key_injective(p, q);
                }
            }
            proof {
                assert forall|q: Pos| #[trigger] points@.contains(q) <==> (q == from || exists|j: int|
                    0 <= j < i + 1 && #[trigger] items@[j].0 == q && items@[j].1 < OPAQUE) by {
                    if q == p && op < OPAQUE {
                        assert(items@[i as int].0 == q);
                    }
                    if exists|j: int| 0 <= j < i + 1 && #[trigger] items@[j].0 == q && items@[j].1 < OPAQUE {
                        let j = choose|j: int| 0 <= j < i + 1 && #[trigger] items@[j].0 == q && items@[j].1 < OPAQUE;
                        if j < i {
                            assert(exists|j: int| 0 <= j < i && #[trigger] items@[j].0 == q && items@[j].1 < OPAQUE);
                        }
                    }
                }
            }
            i += 1;
        }
        assert(points@.contains(from)) by {
            assert(from == from);
        }
        let r = Fov { points, from, r_cutoff, index: seen };
        assert forall|p: Pos| #[trigger] r.points@.contains(p) <==> r.index@.contains(pos_key(p) as u64) by {
            if r.index@.contains(pos_key(p) as u64) {
                let q = choose|q: Pos| #[trigger] r.points@.contains(q) && pos_key(q) == pos_key(p) as u64;
                lemma_pos_key_injective(p, q);
            }
        }
        r
    }

    /// Whether the observer sees `p`.
    pub fn contains(&self, p: Pos) -> (r: bool)
        requires
            self.wf(),
        ensures
            r == self.points@.contains(p),
    {
        broadcast use vstd::std_specs::hash::group_hash_axioms;

        self.index.contains(&pos_key_exec(p))
    }

    /// Number of cells seen.
    pub fn len(&self) -> (r: usize)
        ensures
            r == self.points@.len(),
    {
        self.points.len()
    }

    /// Whether or not there is a possible intersection between a light source at `p`
    /// that reaches `r` hundredths of a cell and the full radius of this field of
    /// view. This is a cheap test to skip sources that are out of range.
    pub fn could_contain(&self, p: Pos, r: u64) -> (res: bool)
        ensures
            res == self.reaches(p, r as int),
    {
        let dx: i128 = self.from.x as i128 - p.x as i128;
        let dy: i128 = self.from.y as i128 - p.y as i128;
        proof {
            assert(0 <= dx * dx <= 0x1_0000_0000 * 0x1_0000_0000 && 0 <= dy * dy <= 0x1_0000_0000
                * 0x1_0000_0000) by (nonlinear_arith)
                requires
                    -0x1_0000_0000 <= dx <= 0x1_0000_0000,
                    -0x1_0000_0000 <= dy <= 0x1_0000_0000,
            ;
        }
        let d2: u128 = (dx * dx + dy * dy) as u128;
        assert(d2 == dist2(self.from, p));
        let s: u128 = self.r_cutoff as u128 + r as u128;
        if s > 0xffff_ffff_ffff_ffff {
            proof {
                assert(10000 * d2 <= s * s) by (nonlinear_arith)
                    requires
                        d2 <= 2 * 0x1_0000_0000 * 0x1_0000_0000,
                        s > 0xffff_ffff_ffff_ffff,
                ;
            }
            return true;
        }
        proof {
            assert(s * s <= 0xffff_ffff_ffff_ffffu128 * 0xffff_ffff_ffff_ffffu128)
                by (nonlinear_arith)
                requires
                    s <= 0xffff_ffff_ffff_ffffu128,
            ;
        }
        10000 * d2 <= s * s
    }
}

proof fn lemma_cauchy_schwarz(x1: int, x2: int, y1: int, y2: int)
    ensures
        (x1 * y1 + x2 * y2) * (x1 * y1 + x2 * y2) <= (x1 * x1 + x2 * x2) * (y1 * y1 + y2 * y2),
{
    let a = x1 * x1;
    let b = x2 * x2;
    let c = y1 * y1;
    let e = y2 * y2;
    let x1y1 = x1 * y1;
    let x1y2 = x1 * y2;
    let x2y1 = x2 * y1;
    let x2y2 = x2 * y2;
    assert((a + b) * (c + e) == a * c + a * e + b * c + b * e) by (nonlinear_arith);
    assert(a * c == x1y1 * x1y1) by (nonlinear_arith)
        requires
            a == x1 * x1,
            c == y1 * y1,
            x1y1 == x1 * y1,
    ;
    assert(a * e == x1y2 * x1y2) by (nonlinear_arith)
        requires
            a == x1 * x1,
            e == y2 * y2,
            x1y2 == x1 * y2,
    ;
    assert(b * c == x2y1 * x2y1) by (nonlinear_arith)
        requires
            b == x2 * x2,
            c == y1 * y1,
            x2y1 == x2 * y1,
    ;
    assert(b * e == x2y2 * x2y2) by (nonlinear_arith)
        requires
            b == x2 * x2,
            e == y2 * y2,
            x2y2 == x2 * y2,
    ;
    assert(x1y1 * x2y2 == x1y2 * x2y1) by (nonlinear_arith)
        requires
            x1y1 == x1 * y1,
            x1y2 == x1 * y2,
            x2y1 == x2 * y1,
            x2y2 == x2 * y2,
    ;
    assert((x1y1 + x2y2) * (x1y1 + x2y2) == x1y1 * x1y1 + 2 * (x1y1 * x2y2) + x2y2 * x2y2)
        by (nonlinear_arith);
    assert(0 <= (x1y2 - x2y1) * (x1y2 - x2y1) == x1y2 * x1y2 - 2 * (x1y2 * x2y1) + x2y1 * x2y1)
        by (nonlinear_arith);
}

pub(crate) proof fn lemma_dist2_self(a: Pos)
    ensures
        dist2(a, a) == 0,
{
    assert((a.x - a.x) * (a.x - a.x) == 0 && (a.y - a.y) * (a.y - a.y) == 0) by (nonlinear_arith);
}

pub(crate) proof fn lemma_smoothed_pos(r: int)
    requires
        0 <= r,
    ensures
        0 < smoothed(r) * smoothed(r),
{
    assert(0 < smoothed(r) * smoothed(r)) by (nonlinear_arith)
        requires
            smoothed(r) >= 33,
    ;
}

/// Two offsets strictly within `a` and `b` hundredths of a cell add up to one
/// strictly within `a + b`.
pub(crate) proof fn lemma_triangle(u1: int, u2: int, v1: int, v2: int, a: int, b: int)
    requires
        0 <= a,
        0 <= b,
        10000 * (u1 * u1 + u2 * u2) < a * a,
        10000 * (v1 * v1 + v2 * v2) < b * b,
    ensures
        10000 * ((u1 + v1) * (u1 + v1) + (u2 + v2) * (u2 + v2)) < (a + b) * (a + b),
{
    let x1 = 100 * u1;
    let x2 = 100 * u2;
    let y1 = 100 * v1;
    let y2 = 100 * v2;
    let xx = x1 * x1 + x2 * x2;
    let yy = y1 * y1 + y2 * y2;
    let d = x1 * y1 + x2 * y2;
    assert(xx == 10000 * (u1 * u1 + u2 * u2) && yy == 10000 * (v1 * v1 + v2 * v2))
        by (nonlinear_arith)
        requires
            x1 == 100 * u1,
            x2 == 100 * u2,
            y1 == 100 * v1,
            y2 == 100 * v2,
            xx == x1 * x1 + x2 * x2,
            yy == y1 * y1 + y2 * y2,
    ;
    assert(0 <= xx && 0 <= yy) by (nonlinear_arith)
        requires
            xx == x1 * x1 + x2 * x2,
            yy == y1 * y1 + y2 * y2,
    ;
    lemma_cauchy_schwarz(x1, x2, y1, y2);
    assert(0 < a && 0 < b);
    assert(xx * yy < (a * b) * (a * b)) by (nonlinear_arith)
        requires
            0 <= xx < a * a,
            0 <= yy < b * b,
            0 < a,
            0 < b,
    ;
    assert(d < a * b) by (nonlinear_arith)
        requires
            d * d <= xx * yy,
            xx * yy < (a * b) * (a * b),
            0 < a,
            0 < b,
    ;
    assert(10000 * ((u1 + v1) * (u1 + v1) + (u2 + v2) * (u2 + v2)) == xx + yy + 2 * d)
        by (nonlinear_arith)
        requires
            x1 == 100 * u1,
            x2 == 100 * u2,
            y1 == 100 * v1,
            y2 == 100 * v2,
            xx == x1 * x1 + x2 * x2,
            yy == y1 * y1 + y2 * y2,
            d == x1 * y1 + x2 * y2,
    ;
    assert((a + b) * (a + b) == a * a + b * b + 2 * (a * b)) by (nonlinear_arith);
}

/// Every cell that a field of view holds lies within its smoothed radius.
pub(crate) proof fn lemma_view_within(grid: Grid<u32>, from: Pos, range: u32, p: Pos)
    requires
        fits(from, range as int),
        in_view(grid, from, range, p),
    ensures
        10000 * dist2(from, p) < smoothed(range as int) * smoothed(range as int),
{
    let c = view_caster(from, range);
    let items = c.items(grid);
    assert(c.r_cutoff == smoothed(range as int));
    if p != from {
        let i = choose|i: int| 0 <= i < items.len() && #[trigger] items[i].0 == p && items[i].1 < OPAQUE;
        lemma_items_upto_ok(c, grid, 8);
        assert(item_ok(c, grid, items[i].0));
    } else {
        lemma_dist2_self(from);
        lemma_smoothed_pos(range as int);
    }
}

proof fn lemma_cutoff_bounds_offset(a: int, r: int)
    requires
        0 <= r,
        10000 * (a * a) < smoothed(r) * smoothed(r),
    ensures
        -r <= a <= r,
{
    if a > r || a < -r {
        assert(10000 * (a * a) >= (100 * r + 100) * (100 * r + 100)) by (nonlinear_arith)
            requires
                a > r || a < -r,
                0 <= r,
        ;
        assert((100 * r + 100) * (100 * r + 100) > (100 * r + 33) * (100 * r + 33))
            by (nonlinear_arith)
            requires
                0 <= r,
        ;
    }
}

/// When no cell the scan reaches is fully shaded, the observer sees its own cell
/// and exactly the cells in bounds that lie strictly within the smoothed radius.
proof fn lemma_unshaded_view_is_disc(grid: Grid<u32>, from: Pos, range: u32, p: Pos)
    requires
        fits(from, range as int),
        forall|t: int|
            0 <= t < view_caster(from, range).items(grid).len() ==> (#[trigger] view_caster(
                from,
                range,
            ).items(grid)[t]).1 < OPAQUE,
    ensures
        in_view(grid, from, range, p) <==> (p == from || (grid.cell(p) is Some && 10000 * dist2(
            from,
            p,
        ) < smoothed(range as int) * smoothed(range as int))),
{
    let c = view_caster(from, range);
    let items = c.items(grid);
    let cut = smoothed(range as int);
    assert(c.r_cutoff == cut);
    if in_view(grid, from, range, p) && p != from {
        let i = choose|i: int| 0 <= i < items.len() && #[trigger] items[i].0 == p && items[i].1 < OPAQUE;
        lemma_items_upto_ok(c, grid, 8);
        assert(item_ok(c, grid, items[i].0));
    }
    if p != from && grid.cell(p) is Some && 10000 * dist2(from, p) < cut * cut {
        let a = p.x - from.x;
        let b = p.y - from.y;
        assert(dist2(from, p) == a * a + b * b) by (nonlinear_arith)
            requires
                a == p.x - from.x,
                b == p.y - from.y,
                dist2(from, p) == (from.x - p.x) * (from.x - p.x) + (from.y - p.y) * (from.y - p.y),
        ;
        assert(0 <= a * a && 0 <= b * b) by (nonlinear_arith);
        lemma_cutoff_bounds_offset(a, range as int);
        lemma_cutoff_bounds_offset(b, range as int);
        let (k, row, col) = lemma_octants_cover(a, b, range as int);
        lemma_cell_pos(c, k, row, col);
        assert(c.cell_pos(k, row, col) == p);
        lemma_cands_index(range as int, row, col);
        let cands = octant_cands(range as int);
        let j = choose|j: int| 0 <= j < cands.len() && #[trigger] cands[j] == (row, col);
        lemma_scan_has(c, grid, k, cands, j);
        let i = choose|i: int|
            0 <= i < c.scan(grid, k, cands).1.len() && (#[trigger] c.scan(grid, k, cands).1[i]).0 == p;
        lemma_items_upto_has(c, grid, 8, k, i);
        let t = choose|t: int| 0 <= t < items.len() && #[trigger] items[t] == c.octant_items(grid, k)[i];
        assert(items[t].0 == p && items[t].1 < OPAQUE);
    }
}

/// On a grid where nothing blocks sight, an observer sees its own cell and
/// exactly the cells in bounds that lie strictly within the smoothed radius: a
/// disc, the same in every direction.
pub proof fn lemma_open_view_is_disc(grid: Grid<u32>, from: Pos, range: u32, p: Pos)
    requires
        fits(from, range as int),
        is_open(grid),
    ensures
        in_view(grid, from, range, p) <==> (p == from || (grid.cell(p) is Some && 10000 * dist2(
            from,
            p,
        ) < smoothed(range as int) * smoothed(range as int))),
{
    lemma_open_items(view_caster(from, range), grid, 8);
    lemma_unshaded_view_is_disc(grid, from, range, p);
}

/// A single cell that is only partly opaque hides nothing: sight passes it, and
/// the observer sees the same disc as on a grid where nothing blocks sight.
pub proof fn lemma_partial_occluder_hides_nothing(
    grid: Grid<u32>,
    from: Pos,
    range: u32,
    q: Pos,
    o: int,
    p: Pos,
)
    requires
        fits(from, range as int),
        only_partial_at(grid, q, o),
    ensures
        in_view(grid, from, range, p) <==> (p == from || (grid.cell(p) is Some && 10000 * dist2(
            from,
            p,
        ) < smoothed(range as int) * smoothed(range as int))),
{
    lemma_partial_items(view_caster(from, range), grid, q, o, 8);
    lemma_unshaded_view_is_disc(grid, from, range, p);
}

proof fn lemma_axis_step(t: int, d: int)
    requires
        d == 0 || d == 1 || d == -1,
    ensures
        t * d == if d == 1 {
            t
        } else if d == -1 {
            -t
        } else {
            0
        },
{
    assert(t * d == if d == 1 {
        t
    } else if d == -1 {
        -t
    } else {
        0
    }) by (nonlinear_arith)
        requires
            d == 0 || d == 1 || d == -1,
    ;
}

proof fn lemma_axis_cand(k: int, row: int, col: int, t: int, w: int, dx: int, dy: int)
    requires
        0 <= k < 8,
        cand_ok((row, col), row),
        1 <= w,
        1 <= t,
        (dx == 0 && (dy == 1 || dy == -1)) || (dy == 0 && (dx == 1 || dx == -1)),
        octant_offset(k, row, col) == (t * dx, t * dy),
    ensures
        col == 0,
        row == t,
        octant_offset(k, w, 0) == (w * dx, w * dy),
{
    lemma_axis_step(t, dx);
    lemma_axis_step(t, dy);
    lemma_axis_step(w, dx);
    lemma_axis_step(w, dy);
}

proof fn lemma_wall_obstruction(c: RPACaster, grid: Grid<u32>, k: int, cands: Seq<(int, int)>, jw: int, w: int)
    requires
        0 <= jw < cands.len(),
        cands[jw] == (w, 0int),
        0 <= w <= u32::MAX,
        admitted(c, grid, k, w, 0),
        grid.cell(c.cell_pos(k, w, 0)) matches Some(o) && o >= OPAQUE,
    ensures
        c.scan(grid, k, cands.take(jw)).0.len() < c.scan(grid, k, cands.take(jw + 1)).0.len(),
        c.scan(grid, k, cands.take(jw + 1)).0[c.scan(grid, k, cands.take(jw)).0.len() as int]
            == (Obstruction { angle: Angle { row: w as u32, col: 0 }, opacity: OPAQUE }),
{
    let before = c.scan(grid, k, cands.take(jw));
    let after = c.scan(grid, k, cands.take(jw + 1));
    assert(cands.take(jw + 1).drop_last() =~= cands.take(jw));
    assert(cands.take(jw + 1).last() == (w, 0int));
    assert(after == c.step(grid, k, w, 0, before));
    let wall_angle = Angle { row: w as u32, col: 0 };
    lemma_shade_bounded(c.vis, before.0, wall_angle, before.0.len());
}

/// Where the target on the axis and the wall before it stand among the
/// candidates of the octant whose item `ti` is the target.
proof fn lemma_axis_provenance(
    c: RPACaster,
    grid: Grid<u32>,
    k: int,
    ti: int,
    dx: int,
    dy: int,
    w: int,
    t: int,
) -> (r: (int, int))
    requires
        fits(c.from, c.radius as int),
        fits(c.from, t),
        0 <= k < 8,
        0 <= ti < c.octant_items(grid, k).len(),
        c.octant_items(grid, k)[ti].0 == (Pos { x: (c.from.x + t * dx) as i32, y: (c.from.y + t * dy) as i32 }),
        c.octant_items(grid, k)[ti].0 != c.from,
        (dx == 0 && (dy == 1 || dy == -1)) || (dy == 0 && (dx == 1 || dx == -1)),
        1 <= w < t,
        t * dx == 0 || t * dx == t || t * dx == -t,
        grid.cell(Pos { x: (c.from.x + w * dx) as i32, y: (c.from.y + w * dy) as i32 }) is Some,
    ensures
        ({
            let cands = octant_cands(c.radius as int);
            let (j, jw) = r;
            &&& 0 <= jw < j < cands.len()
            &&& cands[j] == (t, 0int)
            &&& cands[jw] == (w, 0int)
            &&& c.octant_items(grid, k)[ti].1 == occlusion(
                c.vis,
                c.scan(grid, k, cands.take(j)).0,
                Angle { row: t as u32, col: 0 },
            ) as u32
            &&& admitted(c, grid, k, w, 0)
            &&& c.cell_pos(k, w, 0) == (Pos { x: (c.from.x + w * dx) as i32, y: (c.from.y + w * dy) as i32 })
        }),
{
    let cands = octant_cands(c.radius as int);
    let p = Pos { x: (c.from.x + t * dx) as i32, y: (c.from.y + t * dy) as i32 };
    let wall = Pos { x: (c.from.x + w * dx) as i32, y: (c.from.y + w * dy) as i32 };
    lemma_scan_provenance(c, grid, k, cands, ti);
    let j = choose|j: int|
        0 <= j < cands.len() && admitted(c, grid, k, cands[j].0, cands[j].1)
            && #[trigger] c.scan(grid, k, cands).1[ti] == (
            c.cell_pos(k, cands[j].0, cands[j].1),
            occlusion(
                c.vis,
                c.scan(grid, k, cands.take(j)).0,
                Angle { row: cands[j].0 as u32, col: cands[j].1 as u32 },
            ) as u32,
        );
    let (row, col) = cands[j];
    lemma_octant_cands_ok(c.radius as int);
    assert(cand_ok(cands[j], c.radius as int));
    lemma_cell_pos(c, k, row, col);
    lemma_axis_step(t, dx);
    lemma_axis_step(t, dy);
    lemma_axis_step(w, dx);
    lemma_axis_step(w, dy);
    let (a, b) = octant_offset(k, row, col);
    assert(c.cell_pos(k, row, col) == p);
    assert(p.x == c.from.x + t * dx && p.y == c.from.y + t * dy);
    assert(a == t * dx && b == t * dy);
    lemma_axis_cand(k, row, col, t, w, dx, dy);
    lemma_cands_index(c.radius as int, w, 0);
    let jw = choose|jw: int| 0 <= jw < cands.len() && #[trigger] cands[jw] == (w, 0int);
    lemma_octant_rows_sorted(c.radius as int);
    if jw > j {
        assert(cands[j].0 <= cands[jw].0);
    }
    lemma_cell_pos(c, k, w, 0);
    assert(c.cell_pos(k, w, 0) == wall);
    assert(0 <= w * w < t * t) by (nonlinear_arith)
        requires
            1 <= w < t,
    ;
    assert(a * a + b * b == t * t && (w * dx) * (w * dx) + (w * dy) * (w * dy) == w * w);
    assert(admitted(c, grid, k, w, 0));
    (j, jw)
}

/// In every octant that reaches it, the cell on the axis beyond a fully opaque
/// one is fully shaded.
proof fn lemma_axis_item_blocked(
    c: RPACaster,
    grid: Grid<u32>,
    k: int,
    ti: int,
    dx: int,
    dy: int,
    w: int,
    t: int,
)
    requires
        fits(c.from, c.radius as int),
        fits(c.from, t),
        c.vis == Vis::CenterPlus,
        0 <= k < 8,
        0 <= ti < c.octant_items(grid, k).len(),
        c.octant_items(grid, k)[ti].0 == (Pos { x: (c.from.x + t * dx) as i32, y: (c.from.y + t * dy) as i32 }),
        c.octant_items(grid, k)[ti].0 != c.from,
        (dx == 0 && (dy == 1 || dy == -1)) || (dy == 0 && (dx == 1 || dx == -1)),
        1 <= w < t,
        t <= u32::MAX,
        t * dx == 0 || t * dx == t || t * dx == -t,
        grid.cell(Pos { x: (c.from.x + w * dx) as i32, y: (c.from.y + w * dy) as i32 }) matches Some(
            o,
        ) && o >= OPAQUE,
    ensures
        c.octant_items(grid, k)[ti].1 >= OPAQUE,
{
    let cands = octant_cands(c.radius as int);
    let (j, jw) = lemma_axis_provenance(c, grid, k, ti, dx, dy, w, t);
    lemma_wall_obstruction(c, grid, k, cands, jw, w);
    let m = c.scan(grid, k, cands.take(jw)).0.len() as int;
    let after = c.scan(grid, k, cands.take(jw + 1));
    let wall_angle = Angle { row: w as u32, col: 0 };
    lemma_obs_grow(c, grid, k, cands, jw + 1, j);
    let obs = c.scan(grid, k, cands.take(j)).0;
    assert(obs[m] == after.0[m]);
    let target_angle = Angle { row: t as u32, col: 0 };
    assert(covers(wall_angle, target_angle, 1)) by (nonlinear_arith)
        requires
            wall_angle.row == w,
            wall_angle.col == 0,
            target_angle.row == t,
            target_angle.col == 0,
            1 <= w < t,
    ;
    lemma_center_blocked(obs, target_angle, m);
    lemma_shade_bounded(Vis::CenterPlus, obs, target_angle, obs.len());
}

/// A fully opaque cell straight along an axis from the observer hides from it
/// every cell farther along that axis.
pub proof fn lemma_wall_hides_ray(
    grid: Grid<u32>,
    from: Pos,
    range: u32,
    dx: int,
    dy: int,
    w: int,
    t: int,
)
    requires
        fits(from, range as int),
        fits(from, t),
        (dx == 0 && (dy == 1 || dy == -1)) || (dy == 0 && (dx == 1 || dx == -1)),
        1 <= w < t,
        grid.cell(Pos { x: (from.x + w * dx) as i32, y: (from.y + w * dy) as i32 }) matches Some(
            o,
        ) && o >= OPAQUE,
    ensures
        !in_view(grid, from, range, Pos { x: (from.x + t * dx) as i32, y: (from.y + t * dy) as i32 }),
{
    let c = view_caster(from, range);
    let items = c.items(grid);
    let p = Pos { x: (from.x + t * dx) as i32, y: (from.y + t * dy) as i32 };
    lemma_axis_step(t, dx);
    lemma_axis_step(t, dy);
    assert(p.x == from.x + t * dx && p.y == from.y + t * dy);
    assert(p != from);
    if in_view(grid, from, range, p) {
        let i = choose|i: int| 0 <= i < items.len() && #[trigger] items[i].0 == p && items[i].1 < OPAQUE;
        lemma_items_upto_source(c, grid, 8, i);
        let (k, ti) = choose|k: int, ti: int|
            0 <= k < 8 && 0 <= ti < c.octant_items(grid, k).len() && #[trigger] c.octant_items(
                grid,
                k,
            )[ti] == items[i];
        assert(t <= u32::MAX);
        lemma_axis_item_blocked(c, grid, k, ti, dx, dy, w, t);
    }
}

} // verus!
