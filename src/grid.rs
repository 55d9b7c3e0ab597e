//! Grid positions and a generic row-major 2-D container.
use vstd::prelude::*;

verus! {

/// A cell position within a [Grid].
#[derive(Debug, Clone, Copy, PartialEq, Eq, Structural, Hash)]
pub struct Pos {
    pub x: i32,
    pub y: i32,
}

/// Squared euclidean distance between two positions.
pub open spec fn dist2(a: Pos, b: Pos) -> int {
    (a.x - b.x) * (a.x - b.x) + (a.y - b.y) * (a.y - b.y)
}

/// `n` is the smallest natural number whose square is at least `d2`.
pub open spec fn is_ceil_sqrt(n: int, d2: int) -> bool {
    &&& 0 <= n
    &&& d2 <= n * n
    &&& (n == 0 || (n - 1) * (n - 1) < d2)
}

impl Pos {
    pub fn new(x: i32, y: i32) -> (r: Pos)
        ensures
            r == (Pos { x, y }),
    {
        Pos { x, y }
    }

    /// Euclidean distance to `other`, rounded up to a whole number of cells.
    pub fn dist(&self, other: Pos) -> (r: u32)
        requires
            dist2(*self, other) <= i32::MAX,
        ensures
            is_ceil_sqrt(r as int, dist2(*self, other)),
    {
        let dx: i64 = self.x as i64 - other.x as i64;
        let dy: i64 = self.y as i64 - other.y as i64;
        proof {
            assert(0 <= dx * dx && 0 <= dy * dy) by (nonlinear_arith);
        }
        let d2: u64 = (dx * dx + dy * dy) as u64;
        let mut lo: u64 = 0;
        let mut hi: u64 = 46341;
        while lo < hi
            invariant
                d2 == dist2(*self, other),
                d2 <= i32::MAX,
                lo <= hi <= 46341,
                d2 <= hi * hi,
                lo == 0 || (lo - 1) * (lo - 1) < d2,
            decreases hi - lo,
        {
            let mid: u64 = lo + (hi - lo) / 2;
            proof {
                assert(mid * mid <= 46341 * 46341) by (nonlinear_arith)
                    requires
                        mid <= 46341,
                ;
            }
            if mid * mid >= d2 {
                hi = mid;
            } else {
                lo = mid + 1;
            }
        }
        lo as u32
    }
}

/// Octile distance estimate from `p` to `to`, in whole steps: straight steps cost
/// 10, diagonal ones 14, and the total is divided by 10.
pub open spec fn octile(p: Pos, to: Pos) -> int {
    let dx = if p.x >= to.x {
        p.x - to.x
    } else {
        to.x - p.x
    };
    let dy = if p.y >= to.y {
        p.y - to.y
    } else {
        to.y - p.y
    };
    let (hi, lo) = if dx >= dy {
        (dx, dy)
    } else {
        (dy, dx)
    };
    (10 * hi + 4 * lo) / 10
}

/// The A* heuristic: the octile distance between two cells.
pub fn heuristic(p: Pos, to: Pos) -> (r: i32)
    requires
        ({
            let dx = if p.x >= to.x {
                p.x - to.x
            } else {
                to.x - p.x
            };
            let dy = if p.y >= to.y {
                p.y - to.y
            } else {
                to.y - p.y
            };
            10 * dx + 4 * dy <= i32::MAX && 10 * dy + 4 * dx <= i32::MAX
        }),
    ensures
        r == octile(p, to),
{
    let dx: i64 = if p.x >= to.x {
        p.x as i64 - to.x as i64
    } else {
        to.x as i64 - p.x as i64
    };
    let dy: i64 = if p.y >= to.y {
        p.y as i64 - to.y as i64
    } else {
        to.y as i64 - p.y as i64
    };
    let (hi, lo) = if dx >= dy {
        (dx, dy)
    } else {
        (dy, dx)
    };
    ((10 * hi + 4 * lo) / 10) as i32
}

/// The offset of the `i`-th neighbour of a cell: the four sides, then the four
/// corners.
pub open spec fn neighbour_offset(i: int) -> (int, int) {
    if i == 0 {
        (-1, 0)
    } else if i == 1 {
        (1, 0)
    } else if i == 2 {
        (0, -1)
    } else if i == 3 {
        (0, 1)
    } else if i == 4 {
        (-1, -1)
    } else if i == 5 {
        (-1, 1)
    } else if i == 6 {
        (1, -1)
    } else {
        (1, 1)
    }
}

/// The eight neighbours of `pos`, in order.
pub open spec fn neighbours(pos: Pos) -> Seq<Pos> {
    Seq::new(
        8,
        |i: int|
            Pos {
                x: (pos.x + neighbour_offset(i).0) as i32,
                y: (pos.y + neighbour_offset(i).1) as i32,
            },
    )
}

fn neighbour_offset_exec(i: usize) -> (r: (i32, i32))
    requires
        i < 8,
    ensures
        (r.0 as int, r.1 as int) == neighbour_offset(i as int),
{
    if i == 0 {
        (-1, 0)
    } else if i == 1 {
        (1, 0)
    } else if i == 2 {
        (0, -1)
    } else if i == 3 {
        (0, 1)
    } else if i == 4 {
        (-1, -1)
    } else if i == 5 {
        (-1, 1)
    } else if i == 6 {
        (1, -1)
    } else {
        (1, 1)
    }
}

/// `a / b` rounded toward zero, for `b > 0`.
pub open spec fn div_toward_zero(a: int, b: int) -> int {
    if a >= 0 {
        a / b
    } else {
        -((-a) / b)
    }
}

pub open spec fn abs(a: int) -> int {
    if a < 0 {
        -a
    } else {
        a
    }
}

/// Number of steps of the line from `from` to `to`: the distance along the
/// longer axis.
pub open spec fn line_len(from: Pos, to: Pos) -> int {
    let dx = to.x - from.x;
    let dy = to.y - from.y;
    if abs(dy) > abs(dx) {
        abs(dy)
    } else {
        abs(dx)
    }
}

/// The `i`-th cell of the line from `from` to `to`. It takes `i` steps along the
/// longer axis, and along the shorter one the proportional offset, rounded
/// toward zero.
pub open spec fn line_cell(from: Pos, to: Pos, i: int) -> Pos {
    let dx = to.x - from.x;
    let dy = to.y - from.y;
    let y_longer = abs(dy) > abs(dx);
    let (d_long, d_short) = if y_longer {
        (dy, dx)
    } else {
        (dx, dy)
    };
    let d1 = if d_long < 0 {
        -i
    } else {
        i
    };
    let d2 = if d_long == 0 {
        0
    } else {
        div_toward_zero(i * d_short, abs(d_long))
    };
    if y_longer {
        Pos { x: (from.x + d2) as i32, y: (from.y + d1) as i32 }
    } else {
        Pos { x: (from.x + d1) as i32, y: (from.y + d2) as i32 }
    }
}

proof fn lemma_share_bounded(i: int, s: int, n: int)
    requires
        0 <= i <= n,
        0 < n,
        abs(s) <= n,
    ensures
        abs(div_toward_zero(i * s, n)) <= abs(s),
        s >= 0 ==> 0 <= div_toward_zero(i * s, n) <= s,
        s < 0 ==> s <= div_toward_zero(i * s, n) <= 0,
{
    if s >= 0 {
        assert(0 <= i * s <= n * s) by (nonlinear_arith)
            requires
                0 <= i <= n,
                0 <= s,
        ;
        vstd::arithmetic::div_mod::lemma_div_is_ordered(i * s, n * s, n);
        vstd::arithmetic::div_mod::lemma_div_pos_is_pos(i * s, n);
        assert((n * s) / n == s) by {
            vstd::arithmetic::div_mod::lemma_div_by_multiple(s, n);
            assert(n * s == s * n) by (nonlinear_arith);
        }
    } else {
        let m = -s;
        assert(-(i * s) == i * m) by (nonlinear_arith)
            requires
                m == -s,
        ;
        assert(0 <= i * m <= n * m) by (nonlinear_arith)
            requires
                0 <= i <= n,
                0 <= m,
        ;
        vstd::arithmetic::div_mod::lemma_div_is_ordered(i * m, n * m, n);
        vstd::arithmetic::div_mod::lemma_div_pos_is_pos(i * m, n);
        assert((n * m) / n == m) by {
            vstd::arithmetic::div_mod::lemma_div_by_multiple(m, n);
            assert(n * m == m * n) by (nonlinear_arith);
        }
        if i * s >= 0 {
            assert(i * s == 0) by (nonlinear_arith)
                requires
                    i * s >= 0,
                    i * s == -(i * m),
                    i * m >= 0,
            ;
        }
    }
}

/// A generic 2-D grid container, stored row by row.
#[derive(Debug, Clone)]
pub struct Grid<T> {
    pub cells: Vec<T>,
    pub w: usize,
    pub h: usize,
}

impl<T> Grid<T> {
    /// One cell per position of the `w` by `h` rectangle.
    pub open spec fn wf(&self) -> bool {
        self.cells@.len() == self.w * self.h
    }

    /// Whether `p` lies within the `w` by `h` rectangle.
    pub open spec fn in_bounds(&self, p: Pos) -> bool {
        0 <= p.x < self.w && 0 <= p.y < self.h
    }

    /// Row-major index of `p`.
    pub open spec fn index_of(&self, p: Pos) -> int {
        p.y * self.w + p.x
    }

    /// The cell at `p`, if `p` is in bounds and has a cell.
    pub open spec fn cell(&self, p: Pos) -> Option<T> {
        if self.in_bounds(p) && self.index_of(p) < self.cells@.len() {
            Some(self.cells@[self.index_of(p)])
        } else {
            None
        }
    }

    pub fn len(&self) -> (r: usize)
        ensures
            r == self.cells@.len(),
    {
        self.cells.len()
    }

    pub fn is_empty(&self) -> (r: bool)
        ensures
            r == (self.cells@.len() == 0),
    {
        self.cells.len() == 0
    }

    #[inline]
    pub fn idx(&self, x: usize, y: usize) -> (r: usize)
        requires
            y * self.w + x <= usize::MAX,
        ensures
            r == y * self.w + x,
    {
        proof {
            assert(0 <= y * self.w <= y * self.w + x) by (nonlinear_arith)
                requires
                    0 <= y,
                    0 <= self.w,
                    0 <= x,
            ;
        }
        y * self.w + x
    }

    #[inline]
    pub fn pos_idx(&self, pos: Pos) -> (r: usize)
        requires
            0 <= pos.x,
            0 <= pos.y,
            self.index_of(pos) <= usize::MAX,
        ensures
            r == self.index_of(pos),
    {
        self.idx(pos.x as usize, pos.y as usize)
    }

    pub fn cell_at(&self, pos: Pos) -> (r: &T)
        requires
            0 <= pos.x,
            0 <= pos.y,
            self.index_of(pos) < self.cells@.len(),
        ensures
            *r == self.cells@[self.index_of(pos)],
    {
        let _n = self.cells.len();
        let idx = self.pos_idx(pos);
        &self.cells[idx]
    }

    pub fn contains_pos(&self, pos: Pos) -> (r: bool)
        ensures
            r == self.in_bounds(pos),
    {
        pos.x >= 0 && pos.y >= 0 && (pos.x as usize) < self.w && (pos.y as usize) < self.h
    }

    /// The neighbours of `pos` that are in bounds, sides first, then corners.
    pub fn neighbouring_tiles(&self, pos: Pos) -> (r: Vec<Pos>)
        requires
            i32::MIN < pos.x < i32::MAX,
            i32::MIN < pos.y < i32::MAX,
        ensures
            r@ == neighbours(pos).filter(|p: Pos| self.in_bounds(p)),
    {
        let mut r: Vec<Pos> = Vec::new();
        let mut i: usize = 0;
        proof {
            assert(neighbours(pos).take(0) =~= Seq::<Pos>::empty());
            reveal(Seq::filter);
        }
        while i < 8
            invariant
                i <= 8,
                i32::MIN < pos.x < i32::MAX,
                i32::MIN < pos.y < i32::MAX,
                r@ == neighbours(pos).take(i as int).filter(|p: Pos| self.in_bounds(p)),
            decreases 8 - i,
        {
            let (dx, dy) = neighbour_offset_exec(i);
            let p = Pos { x: pos.x + dx, y: pos.y + dy };
            proof {
                assert(neighbours(pos).take(i + 1) =~= neighbours(pos).take(i as int).push(p));
                neighbours(pos).take(i as int).lemma_filter_push(p, |p: Pos| self.in_bounds(p));
            }
            if self.contains_pos(p) {
                r.push(p);
            }
            i += 1;
        }
        proof {
            assert(neighbours(pos).take(8) =~= neighbours(pos));
        }
        r
    }

    /// The cells of a straight line from `from` to `to`, both included, or none
    /// when either end is out of bounds.
    pub fn line_between(&self, from: Pos, to: Pos) -> (r: Vec<Pos>)
        ensures
            !(self.in_bounds(from) && self.in_bounds(to)) ==> r@.len() == 0,
            self.in_bounds(from) && self.in_bounds(to) ==> r@ == Seq::new(
                (line_len(from, to) + 1) as nat,
                |i: int| line_cell(from, to, i),
            ),
    {
        if !(self.contains_pos(from) && self.contains_pos(to)) {
            return Vec::new();
        }
        let dy: i64 = to.y as i64 - from.y as i64;
        let dx: i64 = to.x as i64 - from.x as i64;
        let ady: i64 = if dy < 0 {
            -dy
        } else {
            dy
        };
        let adx: i64 = if dx < 0 {
            -dx
        } else {
            dx
        };
        let y_longer = ady > adx;
        let (d_long, d_short) = if y_longer {
            (dy, dx)
        } else {
            (dx, dy)
        };
        let n: i64 = if d_long < 0 {
            -d_long
        } else {
            d_long
        };
        let ghost len = line_len(from, to);
        assert(n == len);
        let mut r: Vec<Pos> = Vec::new();
        let mut i: i64 = 0;
        while i <= n
            invariant
                0 <= i <= n + 1,
                n == len,
                0 <= n < 0x8000_0000,
                d_short == if y_longer {
                    dx
                } else {
                    dy
                },
                d_long == if y_longer {
                    dy
                } else {
                    dx
                },
                y_longer == (abs(dy as int) > abs(dx as int)),
                dx == to.x - from.x,
                dy == to.y - from.y,
                n == abs(d_long as int),
                abs(d_short as int) <= n,
                0 <= from.x,
                0 <= from.y,
                0 <= to.x,
                0 <= to.y,
                r@ == Seq::new(i as nat, |t: int| line_cell(from, to, t)),
            decreases n + 1 - i,
        {
            let d1: i64 = if d_long < 0 {
                -i
            } else {
                i
            };
            proof {
                assert(-0x8000_0000 * 0x8000_0000 <= i * d_short <= 0x8000_0000 * 0x8000_0000)
                    by (nonlinear_arith)
                    requires
                        0 <= i <= n,
                        n < 0x8000_0000,
                        abs(d_short as int) <= n,
                ;
            }
            let prod: i64 = i * d_short;
            let d2: i64 = if n == 0 {
                0
            } else if prod >= 0 {
                prod / n
            } else {
                -((-prod) / n)
            };
            proof {
                if n > 0 {
                    lemma_share_bounded(i as int, d_short as int, n as int);
                }
            }
            let p = if y_longer {
                Pos { x: (from.x as i64 + d2) as i32, y: (from.y as i64 + d1) as i32 }
            } else {
                Pos { x: (from.x as i64 + d1) as i32, y: (from.y as i64 + d2) as i32 }
            };
            assert(p == line_cell(from, to, i as int));
            r.push(p);
            proof {
                assert(r@ =~= Seq::new((i + 1) as nat, |t: int| line_cell(from, to, t)));
            }
            i += 1;
        }
        r
    }

    pub fn try_cell_at(&self, pos: Pos) -> (r: Option<&T>)
        ensures
            match r {
                Some(v) => self.cell(pos) == Some(*v),
                None => self.cell(pos) is None,
            },
    {
        if !self.contains_pos(pos) {
            return None;
        }
        proof {
            assert((pos.y as u128) * (self.w as u128) <= 0x8000_0000u128 * 0x1_0000_0000_0000_0000u128)
                by (nonlinear_arith)
                requires
                    0 <= pos.y < 0x8000_0000,
                    self.w < 0x1_0000_0000_0000_0000u128,
            ;
        }
        let idx: u128 = (pos.y as u128) * (self.w as u128) + (pos.x as u128);
        if idx >= self.cells.len() as u128 {
            None
        } else {
            Some(&self.cells[idx as usize])
        }
    }
}

impl<T: Copy> Grid<T> {
    /// A `w` by `h` grid with every cell set to `fill_val`.
    pub fn new(w: usize, h: usize, fill_val: T) -> (r: Self)
        requires
            w * h <= usize::MAX,
        ensures
            r.w == w,
            r.h == h,
            r.wf(),
            forall|i: int| 0 <= i < w * h ==> r.cells@[i] == fill_val,
    {
        let n: usize = w * h;
        let mut cells: Vec<T> = Vec::new();
        while cells.len() < n
            invariant
                n == w * h,
                cells@.len() <= n,
                forall|i: int| 0 <= i < cells@.len() ==> cells@[i] == fill_val,
            decreases n - cells@.len(),
        {
            cells.push(fill_val);
        }
        Grid { cells, w, h }
    }
}

} // verus!
