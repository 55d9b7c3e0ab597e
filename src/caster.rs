//! Restrictive precise angle shadowcasting.
//!
//! Each octant around the origin is scanned row by row, outwards. The cell at
//! transverse offset `col` of row `row` covers the slice `col/(row+1)` to
//! `(col+1)/(row+1)` of the octant's sweep. Its near, center and far angles are
//! tested against the slices of the cells that already cast a shadow, and the
//! cell casts one in turn when light loses anything through it. Opacity is
//! counted in hundredths: `OPAQUE` blocks fully. Distances are compared squared,
//! with radii in hundredths of a cell.
use vstd::prelude::*;
use crate::grid::{dist2, Grid, Pos};

verus! {

/// Opacity of a cell that blocks all light and sight, in hundredths.
pub const OPAQUE: u32 = 100;

/// Added to a radius, in hundredths of a cell, so that cells on the rim are kept.
pub const R_SMOOTHING: u64 = 33;

/// How restrictive to be when classifying a cell as visible, from whether its
/// near, center and far angles are still unobstructed.
#[derive(Debug, Clone, Copy, PartialEq, Eq, Structural)]
pub enum Vis {
    Any,
    CenterPlus,
    All,
}

impl Vis {
    pub open spec fn visible(self, v_near: bool, v_center: bool, v_far: bool) -> bool {
        match self {
            Vis::Any => v_near || v_center || v_far,
            Vis::CenterPlus => v_center && (v_near || v_far),
            Vis::All => v_near && v_center && v_far,
        }
    }

    pub fn is_visible(&self, v_near: bool, v_center: bool, v_far: bool) -> (r: bool)
        ensures
            r == self.visible(v_near, v_center, v_far),
    {
        match self {
            Vis::Any => v_near || v_center || v_far,
            Vis::CenterPlus => v_center && (v_near || v_far),
            Vis::All => v_near && v_center && v_far,
        }
    }
}

/// The angular slice of the cell at offset `col` in row `row` of an octant.
#[derive(Debug, Clone, Copy, PartialEq, Eq, Structural)]
pub struct Angle {
    pub row: u32,
    pub col: u32,
}

/// A slice that casts a shadow, with the opacity of that shadow.
#[derive(Debug, Clone, Copy, PartialEq, Eq, Structural)]
pub struct Obstruction {
    pub angle: Angle,
    pub opacity: u32,
}

/// Whether the angle `(2·a.col + m) / (2·(a.row + 1))` lies strictly inside the
/// slice `o`; `m` is 0, 1 or 2 for the near, center and far angle of `a`.
pub open spec fn covers(o: Angle, a: Angle, m: int) -> bool {
    let num = 2 * a.col + m;
    let den = 2 * (a.row + 1);
    o.col * den < num * (o.row + 1) && num * (o.row + 1) < (o.col + 1) * den
}

/// Shading of a cell against one obstruction, given the shading so far as
/// (near visible, center visible, far visible, opacity).
pub open spec fn shade_step(vis: Vis, s: (bool, bool, bool, int), o: Obstruction, a: Angle) -> (
    bool,
    bool,
    bool,
    int,
) {
    let n = s.0 && !covers(o.angle, a, 0);
    let c = s.1 && !covers(o.angle, a, 1);
    let f = s.2 && !covers(o.angle, a, 2);
    let half = o.opacity / 2;
    let op1 = if !c && half > s.3 {
        half as int
    } else {
        s.3
    };
    let op2 = if !vis.visible(n, c, f) && o.opacity > op1 {
        o.opacity as int
    } else {
        op1
    };
    (n, c, f, op2)
}

/// Shading of a cell against the first `i` obstructions, in the order they were
/// recorded; it stops changing once the cell is fully shaded.
pub open spec fn shade_upto(vis: Vis, obs: Seq<Obstruction>, a: Angle, i: nat) -> (
    bool,
    bool,
    bool,
    int,
)
    decreases i,
{
    if i == 0 {
        (true, true, true, 0)
    } else {
        let s = shade_upto(vis, obs, a, (i - 1) as nat);
        if s.3 >= OPAQUE {
            s
        } else {
            shade_step(vis, s, obs[i - 1], a)
        }
    }
}

/// Opacity that the recorded obstructions put in front of the cell with slice `a`.
pub open spec fn occlusion(vis: Vis, obs: Seq<Obstruction>, a: Angle) -> int {
    shade_upto(vis, obs, a, obs.len()).3
}

proof fn lemma_shade_frozen(vis: Vis, obs: Seq<Obstruction>, a: Angle, i: nat, j: nat)
    requires
        i <= j,
        shade_upto(vis, obs, a, i).3 >= OPAQUE,
    ensures
        shade_upto(vis, obs, a, j) == shade_upto(vis, obs, a, i),
    decreases j - i,
{
    if i < j {
        lemma_shade_frozen(vis, obs, a, i, (j - 1) as nat);
    }
}

fn covers_exec(o: Angle, a: Angle, m: u32) -> (r: bool)
    requires
        m <= 2,
    ensures
        r == covers(o, a, m as int),
{
    let num: u128 = 2 * (a.col as u128) + m as u128;
    let den: u128 = 2 * (a.row as u128 + 1);
    let orow: u128 = o.row as u128 + 1;
    let ocol: u128 = o.col as u128;
    proof {
        assert(ocol * den <= 0x1_0000_0000 * 0x2_0000_0002u128 && num * orow
            <= 0x2_0000_0002u128 * 0x1_0000_0000 && (ocol + 1) * den <= 0x1_0000_0000
            * 0x2_0000_0002u128) by (nonlinear_arith)
            requires
                ocol < 0x1_0000_0000,
                orow <= 0x1_0000_0000,
                num <= 0x2_0000_0000,
                den <= 0x2_0000_0000,
        ;
    }
    ocol * den < num * orow && num * orow < (ocol + 1) * den
}

/// Opacity that the obstructions put in front of the cell with slice `a`.
fn occlusion_exec(vis: Vis, obs: &Vec<Obstruction>, a: Angle) -> (r: u32)
    ensures
        r == occlusion(vis, obs@, a),
{
    let mut v_near = true;
    let mut v_center = true;
    let mut v_far = true;
    let mut opacity: u32 = 0;
    let mut i: usize = 0;
    while i < obs.len() && opacity < OPAQUE
        invariant
            i <= obs@.len(),
            (v_near, v_center, v_far, opacity as int) == shade_upto(vis, obs@, a, i as nat),
        decreases obs@.len() - i,
    {
        let o = obs[i];
        v_near = v_near && !covers_exec(o.angle, a, 0);
        v_center = v_center && !covers_exec(o.angle, a, 1);
        v_far = v_far && !covers_exec(o.angle, a, 2);
        let half = o.opacity / 2;
        if !v_center && half > opacity {
            opacity = half;
        }
        if !vis.is_visible(v_near, v_center, v_far) && o.opacity > opacity {
            opacity = o.opacity;
        }
        i = i + 1;
    }
    proof {
        if i < obs@.len() {
            lemma_shade_frozen(vis, obs@, a, i as nat, obs@.len());
        }
    }
    opacity
}

/// Orientation of octant `k`: whether x is negated, whether y is negated, and
/// whether the scan runs along y (rows are y, offsets within a row are x).
pub open spec fn octant_spec(k: int) -> (bool, bool, bool) {
    if k == 0 {
        (false, false, true)
    } else if k == 1 {
        (false, false, false)
    } else if k == 2 {
        (false, true, true)
    } else if k == 3 {
        (false, true, false)
    } else if k == 4 {
        (true, true, true)
    } else if k == 5 {
        (true, true, false)
    } else if k == 6 {
        (true, false, true)
    } else {
        (true, false, false)
    }
}

pub open spec fn signed(neg: bool, v: int) -> int {
    if neg {
        -v
    } else {
        v
    }
}

/// Offset from the origin of the cell at `col` in row `row` of octant `k`.
pub open spec fn octant_offset(k: int, row: int, col: int) -> (int, int) {
    let (nx, ny, is_vert) = octant_spec(k);
    if is_vert {
        (signed(nx, col), signed(ny, row))
    } else {
        (signed(nx, row), signed(ny, col))
    }
}

/// Whether offset `(a, b)` lies strictly within `cutoff` hundredths of a cell.
pub open spec fn within_cutoff(a: int, b: int, cutoff: int) -> bool {
    10000 * (a * a + b * b) < cutoff * cutoff
}

/// Cutoff, in hundredths of a cell, of a scan with the given radius.
pub open spec fn smoothed(radius: int) -> int {
    100 * radius + R_SMOOTHING
}

/// Positions within `radius` of `from` all have `i32` coordinates.
pub open spec fn fits(from: Pos, radius: int) -> bool {
    &&& i32::MIN <= from.x - radius
    &&& from.x + radius <= i32::MAX
    &&& i32::MIN <= from.y - radius
    &&& from.y + radius <= i32::MAX
}

/// The candidate cells of row `row`, as `(row, col)`.
pub open spec fn row_cands(row: int) -> Seq<(int, int)> {
    Seq::new((row + 1) as nat, |col: int| (row, col))
}

/// The candidate cells of rows 1 to `rows`, in scan order.
pub open spec fn octant_cands(rows: int) -> Seq<(int, int)>
    decreases rows,
{
    if rows <= 0 {
        seq![]
    } else {
        octant_cands(rows - 1) + row_cands(rows)
    }
}

fn octant_exec(k: usize) -> (r: (bool, bool, bool))
    requires
        k < 8,
    ensures
        r == octant_spec(k as int),
{
    if k == 0 {
        (false, false, true)
    } else if k == 1 {
        (false, false, false)
    } else if k == 2 {
        (false, true, true)
    } else if k == 3 {
        (false, true, false)
    } else if k == 4 {
        (true, true, true)
    } else if k == 5 {
        (true, true, false)
    } else if k == 6 {
        (true, false, true)
    } else {
        (true, false, false)
    }
}

/// A shadowcasting scan around `from`: every cell within `radius` rows and
/// strictly within `r_cutoff` hundredths of a cell, over all eight octants.
#[derive(Debug, Clone, Copy)]
pub struct RPACaster {
    pub from: Pos,
    pub radius: u32,
    pub r_cutoff: u64,
    pub vis: Vis,
}

impl RPACaster {
    pub open spec fn cell_pos(self, k: int, row: int, col: int) -> Pos {
        let (a, b) = octant_offset(k, row, col);
        Pos { x: (self.from.x + a) as i32, y: (self.from.y + b) as i32 }
    }

    /// One candidate cell of the scan, given the obstructions and the items so far.
    pub open spec fn step(
        self,
        grid: Grid<u32>,
        k: int,
        row: int,
        col: int,
        st: (Seq<Obstruction>, Seq<(Pos, u32)>),
    ) -> (Seq<Obstruction>, Seq<(Pos, u32)>) {
        let (a, b) = octant_offset(k, row, col);
        let p = self.cell_pos(k, row, col);
        if !within_cutoff(a, b, self.r_cutoff as int) {
            st
        } else {
            match grid.cell(p) {
                None => st,
                Some(cell_op) => {
                    let angle = Angle { row: row as u32, col: col as u32 };
                    let occ = occlusion(self.vis, st.0, angle);
                    let total = if cell_op + occ < OPAQUE {
                        cell_op + occ
                    } else {
                        OPAQUE as int
                    };
                    let obs = if total > 0 {
                        st.0.push(Obstruction { angle, opacity: total as u32 })
                    } else {
                        st.0
                    };
                    (obs, st.1.push((p, occ as u32)))
                },
            }
        }
    }

    /// The origin, as the first item of every octant, when it is in bounds.
    pub open spec fn origin_items(self, grid: Grid<u32>) -> Seq<(Pos, u32)> {
        if grid.cell(self.from) is Some {
            seq![(self.from, 0u32)]
        } else {
            seq![]
        }
    }

    /// Obstructions and items of octant `k` after the candidates `cands`.
    pub open spec fn scan(self, grid: Grid<u32>, k: int, cands: Seq<(int, int)>) -> (
        Seq<Obstruction>,
        Seq<(Pos, u32)>,
    )
        decreases cands.len(),
    {
        if cands.len() == 0 {
            (seq![], self.origin_items(grid))
        } else {
            self.step(grid, k, cands.last().0, cands.last().1, self.scan(grid, k, cands.drop_last()))
        }
    }

    pub open spec fn octant_items(self, grid: Grid<u32>, k: int) -> Seq<(Pos, u32)> {
        self.scan(grid, k, octant_cands(self.radius as int)).1
    }

    /// Items of the first `n` octants, in order.
    pub open spec fn items_upto(self, grid: Grid<u32>, n: nat) -> Seq<(Pos, u32)>
        decreases n,
    {
        if n == 0 {
            seq![]
        } else {
            self.items_upto(grid, (n - 1) as nat) + self.octant_items(grid, n - 1)
        }
    }

    /// Every item of the scan: a position, and the opacity in front of it.
    pub open spec fn items(self, grid: Grid<u32>) -> Seq<(Pos, u32)> {
        self.items_upto(grid, 8)
    }

    fn step_exec(
        &self,
        grid: &Grid<u32>,
        k: usize,
        row: u32,
        col: u32,
        obs: &mut Vec<Obstruction>,
        items: &mut Vec<(Pos, u32)>,
    )
        requires
            k < 8,
            1 <= row <= self.radius,
            col <= row,
            fits(self.from, self.radius as int),
        ensures
            (final(obs)@, final(items)@) == self.step(
                *grid,
                k as int,
                row as int,
                col as int,
                (old(obs)@, old(items)@),
            ),
    {
        let (nx, ny, is_vert) = octant_exec(k);
        let (u, v): (i64, i64) = if is_vert {
            (col as i64, row as i64)
        } else {
            (row as i64, col as i64)
        };
        let a: i64 = if nx {
            -u
        } else {
            u
        };
        let b: i64 = if ny {
            -v
        } else {
            v
        };
        assert((a as int, b as int) == octant_offset(k as int, row as int, col as int));
        proof {
            assert(0 <= a * a <= 0x1_0000_0000 * 0x1_0000_0000 && 0 <= b * b <= 0x1_0000_0000
                * 0x1_0000_0000) by (nonlinear_arith)
                requires
                    -0x1_0000_0000 <= a <= 0x1_0000_0000,
                    -0x1_0000_0000 <= b <= 0x1_0000_0000,
            ;
        }
        let a2: i128 = (a as i128) * (a as i128);
        let b2: i128 = (b as i128) * (b as i128);
        let dd: u128 = (a2 + b2) as u128;
        let c: u128 = self.r_cutoff as u128;
        proof {
            assert(c * c <= 0xffff_ffff_ffff_ffffu128 * 0xffff_ffff_ffff_ffffu128)
                by (nonlinear_arith)
                requires
                    c <= 0xffff_ffff_ffff_ffffu128,
            ;
        }
        if 10000 * dd >= c * c {
            return ;
        }
        let p = Pos { x: (self.from.x as i64 + a) as i32, y: (self.from.y as i64 + b) as i32 };
        assert(p == self.cell_pos(k as int, row as int, col as int));
        match grid.try_cell_at(p) {
            None => {},
            Some(v) => {
                let cell_op = *v;
                let angle = Angle { row, col };
                let occ = occlusion_exec(self.vis, obs, angle);
                let sum: u64 = cell_op as u64 + occ as u64;
                let total: u32 = if sum < OPAQUE as u64 {
                    sum as u32
                } else {
                    OPAQUE
                };
                if total > 0 {
                    obs.push(Obstruction { angle, opacity: total });
                }
                items.push((p, occ));
            },
        }
    }

    /// Runs the scan over all eight octants.
    pub fn cast(&self, grid: &Grid<u32>) -> (r: Vec<(Pos, u32)>)
        requires
            fits(self.from, self.radius as int),
        ensures
            r@ == self.items(*grid),
    {
        let mut out: Vec<(Pos, u32)> = Vec::new();
        let mut k: usize = 0;
        while k < 8
            invariant
                k <= 8,
                fits(self.from, self.radius as int),
                out@ == self.items_upto(*grid, k as nat),
            decreases 8 - k,
        {
            let mut obs: Vec<Obstruction> = Vec::new();
            let mut oct: Vec<(Pos, u32)> = Vec::new();
            if grid.try_cell_at(self.from).is_some() {
                oct.push((self.from, 0));
            }
            proof {
                assert(obs@ =~= seq![]);
                assert(oct@ =~= self.origin_items(*grid));
                assert(octant_cands(0) =~= seq![]);
            }
            let mut row: u64 = 1;
            while row <= self.radius as u64
                invariant
                    k < 8,
                    1 <= row <= self.radius + 1,
                    fits(self.from, self.radius as int),
                    (obs@, oct@) == self.scan(*grid, k as int, octant_cands(row - 1)),
                decreases self.radius + 1 - row,
            {
                let mut col: u64 = 0;
                proof {
                    assert(row_cands(row as int).take(0) =~= seq![]);
                    assert(octant_cands(row - 1) + row_cands(row as int).take(0) =~= octant_cands(
                        row - 1,
                    ));
                }
                while col <= row
                    invariant
                        k < 8,
                        1 <= row <= self.radius,
                        col <= row + 1,
                        fits(self.from, self.radius as int),
                        (obs@, oct@) == self.scan(
                            *grid,
                            k as int,
                            octant_cands(row - 1) + row_cands(row as int).take(col as int),
                        ),
                    decreases row + 1 - col,
                {
                    let ghost prev = octant_cands(row - 1) + row_cands(row as int).take(col as int);
                    let ghost next = octant_cands(row - 1) + row_cands(row as int).take(
                        col + 1,
                    );
                    proof {
                        assert(next.drop_last() =~= prev);
                        assert(next.last() == (row as int, col as int));
                    }
                    self.step_exec(grid, k, row as u32, col as u32, &mut obs, &mut oct);
                    col += 1;
                }
                proof {
                    assert(row_cands(row as int).take(row + 1) =~= row_cands(row as int));
                }
                row += 1;
            }
            proof {
                assert(self.octant_items(*grid, k as int) == oct@);
            }
            out.append(&mut oct);
            k += 1;
        }
        out
    }
}

/// A candidate of a scan with the given radius: a row from 1 to `radius`, and an
/// offset within that row.
pub open spec fn cand_ok(c: (int, int), radius: int) -> bool {
    1 <= c.0 <= radius && 0 <= c.1 <= c.0
}

pub(crate) proof fn lemma_octant_cands_ok(rows: int)
    ensures
        forall|j: int|
            0 <= j < octant_cands(rows).len() ==> cand_ok(#[trigger] octant_cands(rows)[j], rows),
    decreases rows,
{
    if rows > 0 {
        lemma_octant_cands_ok(rows - 1);
        let prev = octant_cands(rows - 1);
        assert forall|j: int| 0 <= j < octant_cands(rows).len() implies cand_ok(
            #[trigger] octant_cands(rows)[j],
            rows,
        ) by {
            if j < prev.len() {
                assert(octant_cands(rows)[j] == prev[j]);
            } else {
                assert(octant_cands(rows)[j] == row_cands(rows)[j - prev.len()]);
            }
        }
    }
}

pub(crate) proof fn lemma_cell_pos(c: RPACaster, k: int, row: int, col: int)
    requires
        fits(c.from, c.radius as int),
        cand_ok((row, col), c.radius as int),
    ensures
        ({
            let (a, b) = octant_offset(k, row, col);
            &&& c.cell_pos(k, row, col).x == c.from.x + a
            &&& c.cell_pos(k, row, col).y == c.from.y + b
            &&& dist2(c.from, c.cell_pos(k, row, col)) == a * a + b * b
        }),
{
    let (a, b) = octant_offset(k, row, col);
    let p = c.cell_pos(k, row, col);
    assert(p.x == c.from.x + a && p.y == c.from.y + b);
    assert((c.from.x - p.x) * (c.from.x - p.x) == a * a) by (nonlinear_arith)
        requires
            c.from.x - p.x == -a,
    ;
    assert((c.from.y - p.y) * (c.from.y - p.y) == b * b) by (nonlinear_arith)
        requires
            c.from.y - p.y == -b,
    ;
}

/// A scanned cell is in bounds, and is the origin or strictly within the cutoff.
pub open spec fn item_ok(c: RPACaster, grid: Grid<u32>, q: Pos) -> bool {
    grid.cell(q) is Some && (q == c.from || 10000 * dist2(c.from, q) < c.r_cutoff
        * c.r_cutoff)
}

proof fn lemma_scan_items_ok(c: RPACaster, grid: Grid<u32>, k: int, cands: Seq<(int, int)>)
    requires
        fits(c.from, c.radius as int),
        forall|j: int| 0 <= j < cands.len() ==> cand_ok(#[trigger] cands[j], c.radius as int),
    ensures
        forall|i: int|
            0 <= i < c.scan(grid, k, cands).1.len() ==> item_ok(
                c,
                grid,
                (#[trigger] c.scan(grid, k, cands).1[i]).0,
            ),
    decreases cands.len(),
{
    if cands.len() > 0 {
        let rest = cands.drop_last();
        assert forall|j: int| 0 <= j < rest.len() implies cand_ok(#[trigger] rest[j], c.radius as int) by {
            assert(rest[j] == cands[j]);
        }
        lemma_scan_items_ok(c, grid, k, rest);
        let (row, col) = cands.last();
        assert(cand_ok(cands[cands.len() - 1], c.radius as int));
        lemma_cell_pos(c, k, row, col);
        let st = c.scan(grid, k, rest);
        let st2 = c.scan(grid, k, cands);
        assert(st2 == c.step(grid, k, row, col, st));
        let (a, b) = octant_offset(k, row, col);
        let q = c.cell_pos(k, row, col);
        if within_cutoff(a, b, c.r_cutoff as int) && grid.cell(q) is Some {
            assert forall|i: int| 0 <= i < st2.1.len() implies item_ok(
                c,
                grid,
                (#[trigger] st2.1[i]).0,
            ) by {
                if i < st.1.len() {
                    assert(st2.1[i] == st.1[i]);
                } else {
                    assert(st2.1[i].0 == q);
                }
            }
        } else {
            assert(st2 == st);
        }
    }
}

pub(crate) proof fn lemma_items_upto_ok(c: RPACaster, grid: Grid<u32>, n: nat)
    requires
        fits(c.from, c.radius as int),
    ensures
        forall|i: int|
            0 <= i < c.items_upto(grid, n).len() ==> item_ok(
                c,
                grid,
                (#[trigger] c.items_upto(grid, n)[i]).0,
            ),
    decreases n,
{
    if n > 0 {
        lemma_items_upto_ok(c, grid, (n - 1) as nat);
        lemma_octant_cands_ok(c.radius as int);
        lemma_scan_items_ok(c, grid, n - 1, octant_cands(c.radius as int));
        let prev = c.items_upto(grid, (n - 1) as nat);
        let oct = c.octant_items(grid, n - 1);
        assert forall|i: int| 0 <= i < c.items_upto(grid, n).len() implies item_ok(
            c,
            grid,
            (#[trigger] c.items_upto(grid, n)[i]).0,
        ) by {
            if i < prev.len() {
                assert(c.items_upto(grid, n)[i] == prev[i]);
            } else {
                assert(c.items_upto(grid, n)[i] == oct[i - prev.len()]);
            }
        }
    }
}

/// Nothing on the grid blocks sight or light.
pub open spec fn is_open(grid: Grid<u32>) -> bool {
    forall|i: int| 0 <= i < grid.cells@.len() ==> grid.cells@[i] == 0
}

proof fn lemma_open_scan(c: RPACaster, grid: Grid<u32>, k: int, cands: Seq<(int, int)>)
    requires
        is_open(grid),
    ensures
        c.scan(grid, k, cands).0 == Seq::<Obstruction>::empty(),
        forall|i: int|
            0 <= i < c.scan(grid, k, cands).1.len() ==> (#[trigger] c.scan(grid, k, cands).1[i]).1
                == 0,
    decreases cands.len(),
{
    if cands.len() > 0 {
        let rest = cands.drop_last();
        lemma_open_scan(c, grid, k, rest);
        let (row, col) = cands.last();
        let st = c.scan(grid, k, rest);
        let st2 = c.scan(grid, k, cands);
        assert(st2 == c.step(grid, k, row, col, st));
        let (a, b) = octant_offset(k, row, col);
        let q = c.cell_pos(k, row, col);
        if within_cutoff(a, b, c.r_cutoff as int) && grid.cell(q) is Some {
            let angle = Angle { row: row as u32, col: col as u32 };
            assert(occlusion(c.vis, st.0, angle) == 0);
            assert(grid.cell(q) == Some(0u32));
            assert forall|i: int| 0 <= i < st2.1.len() implies (#[trigger] st2.1[i]).1 == 0 by {
                if i < st.1.len() {
                    assert(st2.1[i] == st.1[i]);
                }
            }
        } else {
            assert(st2 == st);
        }
    } else {
        let st = c.scan(grid, k, cands);
        assert(st.0 == Seq::<Obstruction>::empty());
    }
}

pub(crate) proof fn lemma_scan_has(c: RPACaster, grid: Grid<u32>, k: int, cands: Seq<(int, int)>, j: int)
    requires
        0 <= j < cands.len(),
        within_cutoff(
            octant_offset(k, cands[j].0, cands[j].1).0,
            octant_offset(k, cands[j].0, cands[j].1).1,
            c.r_cutoff as int,
        ),
        grid.cell(c.cell_pos(k, cands[j].0, cands[j].1)) is Some,
    ensures
        exists|i: int|
            0 <= i < c.scan(grid, k, cands).1.len() && (#[trigger] c.scan(grid, k, cands).1[i]).0
                == c.cell_pos(k, cands[j].0, cands[j].1),
    decreases cands.len(),
{
    let rest = cands.drop_last();
    let (row, col) = cands.last();
    let st = c.scan(grid, k, rest);
    let st2 = c.scan(grid, k, cands);
    assert(st2 == c.step(grid, k, row, col, st));
    let (a, b) = octant_offset(k, row, col);
    let q = c.cell_pos(k, row, col);
    if j == cands.len() - 1 {
        assert(st2.1[st.1.len() as int].0 == q);
    } else {
        assert(rest[j] == cands[j]);
        lemma_scan_has(c, grid, k, rest, j);
        let i = choose|i: int|
            0 <= i < st.1.len() && (#[trigger] st.1[i]).0 == c.cell_pos(k, cands[j].0, cands[j].1);
        if within_cutoff(a, b, c.r_cutoff as int) && grid.cell(q) is Some {
            assert(st2.1[i] == st.1[i]);
        } else {
            assert(st2 == st);
        }
        assert(st2.1[i].0 == c.cell_pos(k, cands[j].0, cands[j].1));
    }
}

pub(crate) proof fn lemma_cands_index(rows: int, row: int, col: int)
    requires
        1 <= row <= rows,
        0 <= col <= row,
    ensures
        exists|j: int| 0 <= j < octant_cands(rows).len() && #[trigger] octant_cands(rows)[j] == (row, col),
    decreases rows,
{
    let prev = octant_cands(rows - 1);
    if row == rows {
        let j = prev.len() + col;
        assert(octant_cands(rows)[j] == row_cands(rows)[col]);
    } else {
        lemma_cands_index(rows - 1, row, col);
        let j = choose|j: int| 0 <= j < prev.len() && #[trigger] prev[j] == (row, col);
        assert(octant_cands(rows)[j] == prev[j]);
    }
}

pub(crate) proof fn lemma_items_upto_has(c: RPACaster, grid: Grid<u32>, n: nat, k: int, i: int)
    requires
        0 <= k < n,
        0 <= i < c.octant_items(grid, k).len(),
    ensures
        exists|t: int|
            0 <= t < c.items_upto(grid, n).len() && #[trigger] c.items_upto(grid, n)[t]
                == c.octant_items(grid, k)[i],
    decreases n,
{
    let prev = c.items_upto(grid, (n - 1) as nat);
    if k == n - 1 {
        assert(c.items_upto(grid, n)[prev.len() + i] == c.octant_items(grid, k)[i]);
    } else {
        lemma_items_upto_has(c, grid, (n - 1) as nat, k, i);
        let t = choose|t: int| 0 <= t < prev.len() && #[trigger] prev[t] == c.octant_items(grid, k)[i];
        assert(c.items_upto(grid, n)[t] == prev[t]);
    }
}

pub(crate) proof fn lemma_open_items(c: RPACaster, grid: Grid<u32>, n: nat)
    requires
        is_open(grid),
    ensures
        forall|t: int|
            0 <= t < c.items_upto(grid, n).len() ==> (#[trigger] c.items_upto(grid, n)[t]).1 == 0,
    decreases n,
{
    if n > 0 {
        lemma_open_items(c, grid, (n - 1) as nat);
        lemma_open_scan(c, grid, n - 1, octant_cands(c.radius as int));
        let prev = c.items_upto(grid, (n - 1) as nat);
        let oct = c.octant_items(grid, n - 1);
        assert forall|t: int| 0 <= t < c.items_upto(grid, n).len() implies (#[trigger] c.items_upto(
            grid,
            n,
        )[t]).1 == 0 by {
            if t < prev.len() {
                assert(c.items_upto(grid, n)[t] == prev[t]);
            } else {
                assert(c.items_upto(grid, n)[t] == oct[t - prev.len()]);
            }
        }
    }
}

/// Every nonzero offset whose coordinates are at most `rows` in size is a
/// candidate of one of the eight octants.
pub(crate) proof fn lemma_octants_cover(a: int, b: int, rows: int) -> (r: (int, int, int))
    requires
        a != 0 || b != 0,
        -rows <= a <= rows,
        -rows <= b <= rows,
    ensures
        0 <= r.0 < 8,
        cand_ok((r.1, r.2), rows),
        octant_offset(r.0, r.1, r.2) == (a, b),
{
    let ua = if a < 0 {
        -a
    } else {
        a
    };
    let ub = if b < 0 {
        -b
    } else {
        b
    };
    if ub >= ua {
        let k = if a >= 0 && b >= 0 {
            0
        } else if a >= 0 {
            2
        } else if b < 0 {
            4
        } else {
            6
        };
        (k, ub, ua)
    } else {
        let k = if a >= 0 && b >= 0 {
            1
        } else if a >= 0 {
            3
        } else if b < 0 {
            5
        } else {
            7
        };
        (k, ua, ub)
    }
}

/// Whether the scan of octant `k` takes in the candidate `(row, col)`: it lies
/// within the cutoff and on the grid.
pub open spec fn admitted(c: RPACaster, grid: Grid<u32>, k: int, row: int, col: int) -> bool {
    let (a, b) = octant_offset(k, row, col);
    within_cutoff(a, b, c.r_cutoff as int) && grid.cell(c.cell_pos(k, row, col)) is Some
}

pub(crate) proof fn lemma_scan_provenance(c: RPACaster, grid: Grid<u32>, k: int, cands: Seq<(int, int)>, i: int)
    requires
        0 <= i < c.scan(grid, k, cands).1.len(),
    ensures
        c.scan(grid, k, cands).1[i] == (c.from, 0u32) || exists|j: int|
            0 <= j < cands.len() && admitted(c, grid, k, cands[j].0, cands[j].1)
                && #[trigger] c.scan(grid, k, cands).1[i] == (
                c.cell_pos(k, cands[j].0, cands[j].1),
                occlusion(
                    c.vis,
                    c.scan(grid, k, cands.take(j)).0,
                    Angle { row: cands[j].0 as u32, col: cands[j].1 as u32 },
                ) as u32,
            ),
    decreases cands.len(),
{
    if cands.len() > 0 {
        let rest = cands.drop_last();
        let (row, col) = cands.last();
        let st = c.scan(grid, k, rest);
        let st2 = c.scan(grid, k, cands);
        assert(st2 == c.step(grid, k, row, col, st));
        assert(cands.take(cands.len() - 1) =~= rest);
        if admitted(c, grid, k, row, col) {
            if i < st.1.len() {
                assert(st2.1[i] == st.1[i]);
                lemma_scan_provenance(c, grid, k, rest, i);
                if st.1[i] != (c.from, 0u32) {
                    let j = choose|j: int|
                        0 <= j < rest.len() && admitted(c, grid, k, rest[j].0, rest[j].1)
                            && #[trigger] c.scan(grid, k, rest).1[i] == (
                            c.cell_pos(k, rest[j].0, rest[j].1),
                            occlusion(
                                c.vis,
                                c.scan(grid, k, rest.take(j)).0,
                                Angle { row: rest[j].0 as u32, col: rest[j].1 as u32 },
                            ) as u32,
                        );
                    assert(rest.take(j) =~= cands.take(j));
                    assert(rest[j] == cands[j]);
                    assert(c.scan(grid, k, cands).1[i] == (
                        c.cell_pos(k, cands[j].0, cands[j].1),
                        occlusion(
                            c.vis,
                            c.scan(grid, k, cands.take(j)).0,
                            Angle { row: cands[j].0 as u32, col: cands[j].1 as u32 },
                        ) as u32,
                    ));
                }
            } else {
                let j = cands.len() - 1;
                assert(c.scan(grid, k, cands).1[i] == (
                    c.cell_pos(k, cands[j].0, cands[j].1),
                    occlusion(
                        c.vis,
                        c.scan(grid, k, cands.take(j)).0,
                        Angle { row: cands[j].0 as u32, col: cands[j].1 as u32 },
                    ) as u32,
                ));
            }
        } else {
            assert(st2 == st);
            lemma_scan_provenance(c, grid, k, rest, i);
            if st.1[i] != (c.from, 0u32) {
                let j = choose|j: int|
                    0 <= j < rest.len() && admitted(c, grid, k, rest[j].0, rest[j].1)
                        && #[trigger] c.scan(grid, k, rest).1[i] == (
                        c.cell_pos(k, rest[j].0, rest[j].1),
                        occlusion(
                            c.vis,
                            c.scan(grid, k, rest.take(j)).0,
                            Angle { row: rest[j].0 as u32, col: rest[j].1 as u32 },
                        ) as u32,
                    );
                assert(rest.take(j) =~= cands.take(j));
                assert(rest[j] == cands[j]);
                assert(c.scan(grid, k, cands).1[i] == (
                    c.cell_pos(k, cands[j].0, cands[j].1),
                    occlusion(
                        c.vis,
                        c.scan(grid, k, cands.take(j)).0,
                        Angle { row: cands[j].0 as u32, col: cands[j].1 as u32 },
                    ) as u32,
                ));
            }
        }
    } else {
        assert(c.scan(grid, k, cands).1 == c.origin_items(grid));
    }
}

pub(crate) proof fn lemma_obs_grow(c: RPACaster, grid: Grid<u32>, k: int, cands: Seq<(int, int)>, j1: int, j2: int)
    requires
        0 <= j1 <= j2 <= cands.len(),
    ensures
        c.scan(grid, k, cands.take(j1)).0.len() <= c.scan(grid, k, cands.take(j2)).0.len(),
        forall|m: int|
            0 <= m < c.scan(grid, k, cands.take(j1)).0.len() ==> #[trigger] c.scan(
                grid,
                k,
                cands.take(j2),
            ).0[m] == c.scan(grid, k, cands.take(j1)).0[m],
    decreases j2 - j1,
{
    if j1 < j2 {
        lemma_obs_grow(c, grid, k, cands, j1, j2 - 1);
        let t2 = cands.take(j2);
        assert(t2.drop_last() =~= cands.take(j2 - 1));
        let st = c.scan(grid, k, cands.take(j2 - 1));
        let st2 = c.scan(grid, k, t2);
        assert(st2 == c.step(grid, k, t2.last().0, t2.last().1, st));
        assert forall|m: int| 0 <= m < st.0.len() implies #[trigger] st2.0[m] == st.0[m] by {}
    }
}

pub(crate) proof fn lemma_shade_bounded(vis: Vis, obs: Seq<Obstruction>, a: Angle, i: nat)
    requires
        i <= obs.len(),
    ensures
        0 <= shade_upto(vis, obs, a, i).3 <= u32::MAX,
    decreases i,
{
    if i > 0 {
        lemma_shade_bounded(vis, obs, a, (i - 1) as nat);
    }
}

proof fn lemma_shade_grows(vis: Vis, obs: Seq<Obstruction>, a: Angle, i: nat, j: nat)
    requires
        i <= j <= obs.len(),
    ensures
        shade_upto(vis, obs, a, i).3 <= shade_upto(vis, obs, a, j).3,
    decreases j - i,
{
    if i < j {
        lemma_shade_grows(vis, obs, a, i, (j - 1) as nat);
    }
}

/// Behind a fully opaque obstruction that covers a cell's center angle, the
/// default policy shades the cell fully.
pub(crate) proof fn lemma_center_blocked(obs: Seq<Obstruction>, a: Angle, m: int)
    requires
        0 <= m < obs.len(),
        covers(obs[m].angle, a, 1),
        obs[m].opacity >= OPAQUE,
    ensures
        occlusion(Vis::CenterPlus, obs, a) >= OPAQUE,
{
    let vis = Vis::CenterPlus;
    let s = shade_upto(vis, obs, a, m as nat);
    assert(shade_upto(vis, obs, a, (m + 1) as nat).3 >= OPAQUE);
    lemma_shade_grows(vis, obs, a, (m + 1) as nat, obs.len());
}

pub(crate) proof fn lemma_octant_rows_sorted(rows: int)
    ensures
        forall|i: int, j: int|
            0 <= i < j < octant_cands(rows).len() ==> #[trigger] octant_cands(rows)[i].0
                <= #[trigger] octant_cands(rows)[j].0,
    decreases rows,
{
    if rows > 0 {
        lemma_octant_rows_sorted(rows - 1);
        lemma_octant_cands_ok(rows - 1);
        let prev = octant_cands(rows - 1);
        let all = octant_cands(rows);
        assert forall|i: int, j: int| 0 <= i < j < all.len() implies #[trigger] all[i].0 <= #[trigger] all[j].0 by {
            if j < prev.len() {
                assert(all[i] == prev[i] && all[j] == prev[j]);
            } else if i < prev.len() {
                assert(all[i] == prev[i]);
                assert(cand_ok(prev[i], rows - 1));
                assert(all[j] == row_cands(rows)[j - prev.len()]);
            } else {
                assert(all[i] == row_cands(rows)[i - prev.len()]);
                assert(all[j] == row_cands(rows)[j - prev.len()]);
            }
        }
    }
}

pub(crate) proof fn lemma_items_upto_source(c: RPACaster, grid: Grid<u32>, n: nat, i: int)
    requires
        0 <= i < c.items_upto(grid, n).len(),
    ensures
        exists|k: int, t: int|
            0 <= k < n && 0 <= t < c.octant_items(grid, k).len() && #[trigger] c.octant_items(
                grid,
                k,
            )[t] == c.items_upto(grid, n)[i],
    decreases n,
{
    let prev = c.items_upto(grid, (n - 1) as nat);
    if i < prev.len() {
        lemma_items_upto_source(c, grid, (n - 1) as nat, i);
        assert(c.items_upto(grid, n)[i] == prev[i]);
    } else {
        let t = i - prev.len();
        assert(c.octant_items(grid, n - 1)[t] == c.items_upto(grid, n)[i]);
    }
}

proof fn lemma_octant_cands_distinct(rows: int)
    ensures
        forall|i: int, j: int|
            0 <= i < j < octant_cands(rows).len() ==> #[trigger] octant_cands(rows)[i]
                != #[trigger] octant_cands(rows)[j],
    decreases rows,
{
    if rows > 0 {
        lemma_octant_cands_distinct(rows - 1);
        lemma_octant_cands_ok(rows - 1);
        let prev = octant_cands(rows - 1);
        let all = octant_cands(rows);
        assert forall|i: int, j: int| 0 <= i < j < all.len() implies #[trigger] all[i] != #[trigger] all[j] by {
            if j < prev.len() {
                assert(all[i] == prev[i] && all[j] == prev[j]);
            } else if i < prev.len() {
                assert(all[i] == prev[i]);
                assert(cand_ok(prev[i], rows - 1));
                assert(all[j] == row_cands(rows)[j - prev.len()]);
            } else {
                assert(all[i] == row_cands(rows)[i - prev.len()]);
                assert(all[j] == row_cands(rows)[j - prev.len()]);
            }
        }
    }
}

proof fn lemma_cell_pos_injective(c: RPACaster, k: int, x: (int, int), y: (int, int))
    requires
        fits(c.from, c.radius as int),
        cand_ok(x, c.radius as int),
        cand_ok(y, c.radius as int),
        c.cell_pos(k, x.0, x.1) == c.cell_pos(k, y.0, y.1),
    ensures
        x == y,
{
    lemma_cell_pos(c, k, x.0, x.1);
    lemma_cell_pos(c, k, y.0, y.1);
}

proof fn lemma_shade_at_most(vis: Vis, obs: Seq<Obstruction>, a: Angle, i: nat, bound: int)
    requires
        i <= obs.len(),
        0 <= bound,
        forall|m: int| 0 <= m < obs.len() ==> (#[trigger] obs[m]).opacity <= bound,
    ensures
        shade_upto(vis, obs, a, i).3 <= bound,
        i > 0 && shade_upto(vis, obs, a, i).3 > 0 ==> obs.len() > 0,
    decreases i,
{
    if i > 0 {
        lemma_shade_at_most(vis, obs, a, (i - 1) as nat, bound);
    }
}

/// Only the cell at `q` blocks anything, and it lets some light through.
pub open spec fn only_partial_at(grid: Grid<u32>, q: Pos, o: int) -> bool {
    &&& 0 <= o < OPAQUE
    &&& grid.cell(q) == Some(o as u32)
    &&& forall|p: Pos| p != q && #[trigger] grid.cell(p) is Some ==> grid.cell(p) == Some(0u32)
}

proof fn lemma_partial_scan(
    c: RPACaster,
    grid: Grid<u32>,
    k: int,
    cands: Seq<(int, int)>,
    q: Pos,
    o: int,
)
    requires
        fits(c.from, c.radius as int),
        only_partial_at(grid, q, o),
        forall|j: int| 0 <= j < cands.len() ==> cand_ok(#[trigger] cands[j], c.radius as int),
        forall|i: int, j: int| 0 <= i < j < cands.len() ==> #[trigger] cands[i] != #[trigger] cands[j],
    ensures
        forall|m: int|
            0 <= m < c.scan(grid, k, cands).0.len() ==> (#[trigger] c.scan(grid, k, cands).0[m]).opacity
                <= o,
        forall|i: int|
            0 <= i < c.scan(grid, k, cands).1.len() ==> (#[trigger] c.scan(grid, k, cands).1[i]).1
                <= o,
        c.scan(grid, k, cands).0.len() > 0 ==> exists|j: int|
            0 <= j < cands.len() && c.cell_pos(k, (#[trigger] cands[j]).0, cands[j].1) == q,
    decreases cands.len(),
{
    if cands.len() > 0 {
        let rest = cands.drop_last();
        assert forall|j: int| 0 <= j < rest.len() implies cand_ok(#[trigger] rest[j], c.radius as int) by {
            assert(rest[j] == cands[j]);
        }
        assert forall|i: int, j: int| 0 <= i < j < rest.len() implies #[trigger] rest[i] != #[trigger] rest[j] by {
            assert(rest[i] == cands[i] && rest[j] == cands[j]);
        }
        lemma_partial_scan(c, grid, k, rest, q, o);
        let (row, col) = cands.last();
        let st = c.scan(grid, k, rest);
        let st2 = c.scan(grid, k, cands);
        assert(st2 == c.step(grid, k, row, col, st));
        let p = c.cell_pos(k, row, col);
        let angle = Angle { row: row as u32, col: col as u32 };
        if admitted(c, grid, k, row, col) {
            lemma_shade_at_most(c.vis, st.0, angle, st.0.len(), o);
            lemma_shade_bounded(c.vis, st.0, angle, st.0.len());
            let occ = occlusion(c.vis, st.0, angle);
            assert(st2.1 == st.1.push((p, occ as u32)));
            if p == q && st.0.len() > 0 {
                let j = choose|j: int| 0 <= j < rest.len() && c.cell_pos(k, (#[trigger] rest[j]).0, rest[j].1) == q;
                assert(rest[j] == cands[j]);
                assert(cand_ok(cands[j], c.radius as int));
                assert(cand_ok(cands[cands.len() - 1], c.radius as int));
                lemma_cell_pos_injective(c, k, cands[j], cands[cands.len() - 1]);
                assert(cands[j] != cands[cands.len() - 1]);
            }
            if p == q {
                assert(occ == 0);
                assert(c.cell_pos(k, (cands[cands.len() - 1]).0, cands[cands.len() - 1].1) == q);
            } else {
                assert(grid.cell(p) == Some(0u32));
            }
            assert forall|m: int| 0 <= m < st2.0.len() implies (#[trigger] st2.0[m]).opacity <= o by {
                if m < st.0.len() {
                    assert(st2.0[m] == st.0[m]);
                }
            }
            assert forall|i: int| 0 <= i < st2.1.len() implies (#[trigger] st2.1[i]).1 <= o by {
                if i < st.1.len() {
                    assert(st2.1[i] == st.1[i]);
                }
            }
            if st2.0.len() > 0 {
                if st.0.len() > 0 {
                    let j = choose|j: int| 0 <= j < rest.len() && c.cell_pos(k, (#[trigger] rest[j]).0, rest[j].1) == q;
                    assert(rest[j] == cands[j]);
                } else {
                    assert(p == q);
                    assert(c.cell_pos(k, (cands[cands.len() - 1]).0, cands[cands.len() - 1].1) == q);
                }
            }
        } else {
            assert(st2 == st);
            if st.0.len() > 0 {
                let j = choose|j: int| 0 <= j < rest.len() && c.cell_pos(k, (#[trigger] rest[j]).0, rest[j].1) == q;
                assert(rest[j] == cands[j]);
            }
        }
    } else {
        assert(c.scan(grid, k, cands).1 == c.origin_items(grid));
    }
}

/// With a single, partial occluder, nothing the scan reaches is fully shaded:
/// no item carries more opacity than the occluder has.
pub(crate) proof fn lemma_partial_items(c: RPACaster, grid: Grid<u32>, q: Pos, o: int, n: nat)
    requires
        fits(c.from, c.radius as int),
        only_partial_at(grid, q, o),
    ensures
        forall|t: int| 0 <= t < c.items_upto(grid, n).len() ==> (#[trigger] c.items_upto(grid, n)[t]).1 <= o,
    decreases n,
{
    if n > 0 {
        lemma_partial_items(c, grid, q, o, (n - 1) as nat);
        lemma_octant_cands_ok(c.radius as int);
        lemma_octant_cands_distinct(c.radius as int);
        lemma_partial_scan(c, grid, n - 1, octant_cands(c.radius as int), q, o);
        let prev = c.items_upto(grid, (n - 1) as nat);
        let oct = c.octant_items(grid, n - 1);
        assert forall|t: int| 0 <= t < c.items_upto(grid, n).len() implies (#[trigger] c.items_upto(grid, n)[t]).1 <= o by {
            if t < prev.len() {
                assert(c.items_upto(grid, n)[t] == prev[t]);
            } else {
                assert(c.items_upto(grid, n)[t] == oct[t - prev.len()]);
            }
        }
    }
}

} // verus!
