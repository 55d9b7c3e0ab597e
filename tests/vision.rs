use dalbrack::color::Color;
use dalbrack::caster::OPAQUE;
use dalbrack::fov::{Fov, FovRange};
use dalbrack::light::{LightMap, LightSource};
use dalbrack::grid::{Grid, Pos};
use dalbrack::vision::{remember_lit, Vision};

fn walled_grid() -> Grid<u32> {
    let mut grid: Grid<u32> = Grid::new(15, 15, 0);
    for y in 0..15 {
        let idx = grid.idx(9, y);
        grid.cells[idx] = OPAQUE;
    }
    grid
}

#[test]
fn vision_recomputes_view_only_when_dirty() {
    let grid = walled_grid();
    let torch = vec![(Pos::new(4, 4), LightSource { range: 6, color: Color::RGB(178, 111, 45) })];
    let mut vision = Vision::new(&grid, Pos::new(4, 4), FovRange(5), &torch);
    assert!(!vision.dirty);
    let before = vision.fov.len();
    // moving without marking the view stale keeps the old view
    vision.refresh(&grid, Pos::new(2, 2), FovRange(5), &torch);
    assert_eq!(vision.fov.from, Pos::new(4, 4));
    assert_eq!(vision.fov.len(), before);
    vision.mark_dirty();
    assert!(vision.dirty);
    vision.refresh(&grid, Pos::new(2, 2), FovRange(5), &torch);
    assert!(!vision.dirty);
    assert_eq!(vision.fov.from, Pos::new(2, 2));
    let fresh = Fov::new(&grid, Pos::new(2, 2), FovRange(5));
    assert_eq!(vision.fov.len(), fresh.len());
    for (p, _) in vision.light_map.points.iter() {
        assert!(vision.fov.contains(*p));
    }
}

#[test]
fn explored_cells_are_lit_cells_in_view() {
    let grid = walled_grid();
    let fov = Fov::new(&grid, Pos::new(4, 4), FovRange(6));
    let lm = LightMap::new(&grid, Pos::new(4, 4), &fov, LightSource { range: 3, color: Color::RGB(255, 255, 255) });
    let mut explored = vec![false; grid.cells.len()];
    explored[grid.idx(14, 14)] = true;
    remember_lit(&mut explored, &grid, &fov, &lm);
    assert!(explored[grid.idx(14, 14)]);
    assert!(explored[grid.idx(4, 4)]);
    assert!(explored[grid.idx(6, 4)]);
    // in view but beyond the light's reach
    assert!(fov.contains(Pos::new(8, 4)));
    assert!(!explored[grid.idx(8, 4)]);
    // beyond the wall
    assert!(!explored[grid.idx(10, 4)]);
    let count = explored.iter().filter(|e| **e).count();
    assert_eq!(count, lm.points.len() + 1);
}
