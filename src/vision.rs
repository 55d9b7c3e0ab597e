//! An observer's view and light, kept between turns.
use vstd::prelude::*;
use crate::caster::fits;
use crate::fov::{Fov, FovRange};
use crate::light::{merged_light, LightMap, LightSource};
use crate::grid::{Grid, Pos};

verus! {

/// Every light of `sources` stands where positions within its range fit in `i32`.
pub open spec fn sources_fit(sources: Seq<(Pos, LightSource)>) -> bool {
    forall|i: int| 0 <= i < sources.len() ==> fits(sources[i].0, sources[i].1.range as int)
}

/// `light_map` is the light of `sources` on the cells of `fov`.
pub open spec fn lights(grid: Grid<u32>, fov: Fov, sources: Seq<(Pos, LightSource)>, light_map: LightMap) -> bool {
    &&& light_map.wf()
    &&& forall|p: Pos| #[trigger] light_map.light_at(p) == merged_light(grid, fov, sources, sources.len(), p)
}

/// What an observer sees and how it is lit. The field of view is rebuilt only
/// once `dirty` is set, when the observer has moved or its range has changed,
/// and always before the light map, which depends on it.
pub struct Vision {
    pub fov: Fov,
    pub light_map: LightMap,
    pub dirty: bool,
}

impl Vision {
    pub open spec fn wf(&self) -> bool {
        self.fov.wf() && self.light_map.wf()
    }

    pub fn new(grid: &Grid<u32>, from: Pos, range: FovRange, sources: &Vec<(Pos, LightSource)>) -> (r: Vision)
        requires
            fits(from, range.0 as int),
            sources_fit(sources@),
        ensures
            r.wf(),
            !r.dirty,
            r.fov.is_view_of(*grid, from, range.0),
            lights(*grid, r.fov, sources@, r.light_map),
    {
        let fov = Fov::new(grid, from, range);
        let light_map = LightMap::from_sources(grid, &fov, sources);
        Vision { fov, light_map, dirty: false }
    }

    /// Notes that the observer has moved or changed range.
    pub fn mark_dirty(&mut self)
        ensures
            final(self).wf() == old(self).wf(),
            final(self).dirty,
            final(self).fov == old(self).fov,
            final(self).light_map == old(self).light_map,
    {
        self.dirty = true;
    }

    /// Rebuilds the field of view if it is stale, and only then.
    pub fn update_fov(&mut self, grid: &Grid<u32>, from: Pos, range: FovRange)
        requires
            old(self).wf(),
            fits(from, range.0 as int),
        ensures
            final(self).wf(),
            !final(self).dirty,
            old(self).dirty ==> final(self).fov.is_view_of(*grid, from, range.0),
            !old(self).dirty ==> final(self).fov == old(self).fov,
            final(self).light_map == old(self).light_map,
    {
        if self.dirty {
            self.fov = Fov::new(grid, from, range);
            self.dirty = false;
        }
    }

    /// Rebuilds the light map from the current field of view.
    pub fn update_light_map(&mut self, grid: &Grid<u32>, sources: &Vec<(Pos, LightSource)>)
        requires
            old(self).wf(),
            sources_fit(sources@),
        ensures
            final(self).wf(),
            final(self).fov == old(self).fov,
            final(self).dirty == old(self).dirty,
            lights(*grid, final(self).fov, sources@, final(self).light_map),
    {
        self.light_map = LightMap::from_sources(grid, &self.fov, sources);
    }

    /// Brings view and light up to date after a turn: the field of view first,
    /// if stale, then the light map on it.
    pub fn refresh(
        &mut self,
        grid: &Grid<u32>,
        from: Pos,
        range: FovRange,
        sources: &Vec<(Pos, LightSource)>,
    )
        requires
            old(self).wf(),
            fits(from, range.0 as int),
            sources_fit(sources@),
        ensures
            final(self).wf(),
            !final(self).dirty,
            old(self).dirty ==> final(self).fov.is_view_of(*grid, from, range.0),
            !old(self).dirty ==> final(self).fov == old(self).fov,
            lights(*grid, final(self).fov, sources@, final(self).light_map),
    {
        self.update_fov(grid, from, range);
        self.update_light_map(grid, sources);
    }
}

/// Whether `p` is a cell of `grid` that is in view and lit.
pub open spec fn seen_lit(grid: Grid<u32>, fov: Fov, light_map: LightMap, p: Pos) -> bool {
    fov.points@.contains(p) && light_map.light_at(p) is Some && grid.in_bounds(p)
}

proof fn lemma_index_in_grid(grid: Grid<u32>, p: Pos)
    requires
        grid.wf(),
        grid.in_bounds(p),
    ensures
        0 <= grid.index_of(p) < grid.cells@.len(),
{
    assert(0 <= p.y * grid.w + p.x < grid.w * grid.h) by (nonlinear_arith)
        requires
            0 <= p.x < grid.w,
            0 <= p.y < grid.h,
    ;
}

/// Marks as explored, in `explored` (one flag per cell of `grid`), every cell
/// that is in view and lit; cells once explored stay so.
pub fn remember_lit(explored: &mut Vec<bool>, grid: &Grid<u32>, fov: &Fov, light_map: &LightMap)
    requires
        grid.wf(),
        old(explored)@.len() == grid.cells@.len(),
        light_map.wf(),
    ensures
        final(explored)@.len() == old(explored)@.len(),
        forall|i: int|
            0 <= i < final(explored)@.len() ==> (#[trigger] final(explored)@[i] == (old(explored)@[i]
                || exists|p: Pos| seen_lit(*grid, *fov, *light_map, p) && grid.index_of(p) == i)),
{
    let ghost start = explored@;
    let mut j: usize = 0;
    while j < fov.points.len()
        invariant
            j <= fov.points@.len(),
            grid.wf(),
            light_map.wf(),
            explored@.len() == start.len(),
            start.len() == grid.cells@.len(),
            forall|i: int|
                0 <= i < explored@.len() ==> (#[trigger] explored@[i] == (start[i] || exists|t: int|
                    0 <= t < j && seen_lit(*grid, *fov, *light_map, #[trigger] fov.points@[t])
                        && grid.index_of(fov.points@[t]) == i)),
        decreases fov.points@.len() - j,
    {
        let p = fov.points[j];
        let ghost before = explored@;
        if grid.contains_pos(p) && light_map.get(p).is_some() {
            proof {
                lemma_index_in_grid(*grid, p);
            }
            let _n = grid.cells.len();
            let idx = grid.pos_idx(p);
            explored.set(idx, true);
        }
        proof {
            assert(fov.points@[j as int] == p);
            assert forall|i: int| 0 <= i < explored@.len() implies (#[trigger] explored@[i] == (start[i]
                || exists|t: int|
                0 <= t < j + 1 && seen_lit(*grid, *fov, *light_map, #[trigger] fov.points@[t])
                    && grid.index_of(fov.points@[t]) == i)) by {
                if seen_lit(*grid, *fov, *light_map, p) && grid.index_of(p) == i {
                    assert(fov.points@[j as int] == p);
                }
                if exists|t: int|
                    0 <= t < j + 1 && seen_lit(*grid, *fov, *light_map, #[trigger] fov.points@[t])
                        && grid.index_of(fov.points@[t]) == i {
                    let t = choose|t: int|
                        0 <= t < j + 1 && seen_lit(*grid, *fov, *light_map, #[trigger] fov.points@[t])
                            && grid.index_of(fov.points@[t]) == i;
                    if t < j {
                        assert(exists|t: int|
                            0 <= t < j && seen_lit(*grid, *fov, *light_map, #[trigger] fov.points@[t])
                                && grid.index_of(fov.points@[t]) == i);
                    }
                }
            }
        }
        j += 1;
    }
    proof {
        assert forall|i: int| 0 <= i < explored@.len() implies (#[trigger] explored@[i] == (start[i]
            || exists|p: Pos| seen_lit(*grid, *fov, *light_map, p) && grid.index_of(p) == i)) by {
            if exists|p: Pos| seen_lit(*grid, *fov, *light_map, p) && grid.index_of(p) == i {
                let p = choose|p: Pos| seen_lit(*grid, *fov, *light_map, p) && grid.index_of(p) == i;
                let t = choose|t: int| 0 <= t < fov.points@.len() && fov.points@[t] == p;
                assert(seen_lit(*grid, *fov, *light_map, fov.points@[t]));
            }
        }
    }
}

} // verus!
