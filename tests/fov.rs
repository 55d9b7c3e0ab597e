use dalbrack::color::Color;
use dalbrack::caster::{RPACaster, Vis, OPAQUE};
use dalbrack::fov::{Fov, FovRange};
use dalbrack::light::{LightMap, LightSource};
use dalbrack::grid::{Grid, Pos};

fn open_grid(w: usize, h: usize) -> Grid<u32> {
    Grid::new(w, h, 0)
}

fn with_cell(mut grid: Grid<u32>, x: usize, y: usize, opacity: u32) -> Grid<u32> {
    let idx = grid.idx(x, y);
    grid.cells[idx] = opacity;
    grid
}

fn brightness(c: Color) -> u32 {
    c.r as u32 + c.g as u32 + c.b as u32
}

#[test]
fn open_grid_view_count_matches_disc() {
    let grid = open_grid(21, 21);
    let fov = Fov::new(&grid, Pos::new(10, 10), FovRange(8));
    let mut expected = 0;
    for x in 0..21i32 {
        for y in 0..21i32 {
            let d = (((x - 10) * (x - 10) + (y - 10) * (y - 10)) as f64).sqrt();
            if d <= 8.33 {
                expected += 1;
            }
        }
    }
    assert_eq!(expected, 221);
    assert_eq!(fov.len(), expected);
}

#[test]
fn open_square_view_is_symmetric_disc() {
    for r in [3i32, 5, 10] {
        let side = (2 * r + 1) as usize;
        let grid = open_grid(side, side);
        let fov = Fov::new(&grid, Pos::new(r, r), FovRange(r as u32));
        let mut in_disc = 0;
        for x in 0..side as i32 {
            for y in 0..side as i32 {
                let d = (((x - r) * (x - r) + (y - r) * (y - r)) as f64).sqrt();
                let expected = d <= r as f64 + 0.33;
                if expected {
                    in_disc += 1;
                }
                assert_eq!(fov.contains(Pos::new(x, y)), expected, "r = {r}, ({x}, {y})");
                assert_eq!(
                    fov.contains(Pos::new(x, y)),
                    fov.contains(Pos::new(2 * r - x, y)),
                    "mirror in x, r = {r}"
                );
                assert_eq!(
                    fov.contains(Pos::new(x, y)),
                    fov.contains(Pos::new(y, x)),
                    "mirror in the diagonal, r = {r}"
                );
            }
        }
        assert_eq!(fov.len(), in_disc);
    }
}

#[test]
fn wall_hides_cells_behind_it() {
    let grid = with_cell(open_grid(21, 21), 10, 15, OPAQUE);
    let fov = Fov::new(&grid, Pos::new(10, 10), FovRange(8));
    assert!(!fov.contains(Pos::new(10, 16)));
    assert!(!fov.contains(Pos::new(10, 17)));
    assert!(fov.contains(Pos::new(9, 16)));
    // the wall itself is seen
    assert!(fov.contains(Pos::new(10, 15)));
}

#[test]
fn full_occluder_blocks_the_ray_beyond_it() {
    let grid = with_cell(open_grid(21, 21), 10, 13, OPAQUE);
    let fov = Fov::new(&grid, Pos::new(10, 10), FovRange(8));
    for y in 11..=13 {
        assert!(fov.contains(Pos::new(10, y)), "(10, {y}) is in front of or at the wall");
    }
    for y in 14..=18 {
        assert!(!fov.contains(Pos::new(10, y)), "(10, {y}) is behind the wall");
    }
    assert!(fov.contains(Pos::new(9, 13)));
    assert!(fov.contains(Pos::new(11, 13)));
    assert!(fov.contains(Pos::new(8, 16)));
    assert!(fov.contains(Pos::new(12, 16)));
    let open = Fov::new(&open_grid(21, 21), Pos::new(10, 10), FovRange(8));
    assert!(open.contains(Pos::new(10, 16)));
}

#[test]
fn partial_occluder_lets_sight_through_but_dims_light() {
    let grid = with_cell(open_grid(21, 21), 10, 12, 50);
    let open = open_grid(21, 21);
    let from = Pos::new(10, 10);
    let target = Pos::new(10, 14);
    let fov = Fov::new(&grid, from, FovRange(8));
    let open_fov = Fov::new(&open, from, FovRange(8));
    assert!(fov.contains(target));
    let source = LightSource { range: 8, color: Color::RGB(178, 111, 45) };
    let lit = LightMap::new(&grid, from, &fov, source).get(target).unwrap();
    let unobstructed = LightMap::new(&open, from, &open_fov, source).get(target).unwrap();
    assert_eq!(unobstructed, Color::RGB(199, 124, 50));
    assert_eq!(lit, Color::RGB(99, 62, 25));
    assert!(brightness(lit) < brightness(unobstructed));
}

#[test]
fn observer_cell_always_in_view() {
    let grid = with_cell(open_grid(5, 5), 2, 2, OPAQUE);
    let fov = Fov::new(&grid, Pos::new(2, 2), FovRange(2));
    assert!(fov.contains(Pos::new(2, 2)));
    let outside = Fov::new(&open_grid(5, 5), Pos::new(-3, -3), FovRange(1));
    assert!(outside.contains(Pos::new(-3, -3)));
    assert_eq!(outside.len(), 1);
    let zero = Fov::new(&open_grid(5, 5), Pos::new(1, 1), FovRange(0));
    assert_eq!(zero.len(), 1);
}

#[test]
fn light_map_stays_within_view() {
    let mut grid = open_grid(21, 21);
    for y in 0..21 {
        grid = with_cell(grid, 14, y, OPAQUE);
    }
    grid = with_cell(grid, 8, 8, 70);
    let fov = Fov::new(&grid, Pos::new(10, 10), FovRange(6));
    let sources = vec![
        (Pos::new(10, 10), LightSource { range: 12, color: Color::RGB(178, 111, 45) }),
        (Pos::new(17, 10), LightSource { range: 5, color: Color::RGB(0, 80, 200) }),
        (Pos::new(12, 4), LightSource { range: 4, color: Color::RGB(250, 250, 250) }),
    ];
    let lm = LightMap::from_sources(&grid, &fov, &sources);
    assert!(!lm.points.is_empty());
    for (p, _) in lm.points.iter() {
        assert!(fov.contains(*p), "{p:?} is lit but not in view");
    }
    let beyond_wall = LightMap::new(&grid, Pos::new(17, 10), &fov, sources[1].1);
    for (p, _) in beyond_wall.points.iter() {
        assert!(fov.contains(*p));
    }
}

#[test]
fn light_dims_along_a_ray() {
    let grid = open_grid(21, 21);
    let from = Pos::new(10, 10);
    let fov = Fov::new(&grid, from, FovRange(10));
    let lm = LightMap::new(&grid, from, &fov, LightSource { range: 10, color: Color::RGB(178, 111, 45) });
    let mut last = u32::MAX;
    for i in 0..=10 {
        let c = lm.get(Pos::new(10, 10 + i)).unwrap();
        assert!(brightness(c) <= last, "brighter at distance {i}");
        last = brightness(c);
    }
    assert_eq!(lm.get(Pos::new(10, 10)), Some(Color::RGB(255, 255, 255)));
    assert_eq!(lm.get(Pos::new(10, 11)), Some(Color::RGB(255, 168, 68)));
    assert_eq!(lm.get(Pos::new(10, 20)), Some(Color::RGB(79, 49, 20)));
}

#[test]
fn could_contain_never_drops_a_reaching_light() {
    let grid = open_grid(60, 60);
    let fov = Fov::new(&grid, Pos::new(10, 10), FovRange(5));
    let cases = [(Pos::new(30, 30), 4u32), (Pos::new(10, 22), 6), (Pos::new(18, 10), 2), (Pos::new(50, 10), 30)];
    for (at, range) in cases {
        let may = fov.could_contain(at, range as u64 * 100 + 33);
        let lm = LightMap::new(&grid, at, &fov, LightSource { range, color: Color::RGB(200, 200, 200) });
        if !may {
            assert!(lm.points.is_empty(), "{at:?} was skipped but lights cells");
        }
    }
    assert!(!fov.could_contain(Pos::new(30, 30), 433));
    assert!(!fov.could_contain(Pos::new(18, 10), 233));
    assert!(fov.could_contain(Pos::new(16, 10), 233));
    assert!(!LightMap::new(&grid, Pos::new(16, 10), &fov, LightSource { range: 2, color: Color::RGB(200, 200, 200) })
        .points
        .is_empty());
}

#[test]
fn sources_out_of_reach_are_skipped() {
    let grid = open_grid(40, 40);
    let fov = Fov::new(&grid, Pos::new(5, 5), FovRange(3));
    let sources = vec![(Pos::new(35, 35), LightSource { range: 3, color: Color::RGB(255, 0, 0) })];
    let lm = LightMap::from_sources(&grid, &fov, &sources);
    assert!(lm.points.is_empty());
}

#[test]
fn overlapping_lights_blend_half_and_half() {
    let grid = open_grid(21, 21);
    let fov = Fov::new(&grid, Pos::new(10, 10), FovRange(8));
    let red = LightSource { range: 8, color: Color::RGB(255, 0, 0) };
    let blue = LightSource { range: 8, color: Color::RGB(0, 0, 255) };
    let sources = vec![(Pos::new(10, 10), red), (Pos::new(10, 10), blue)];
    let lm = LightMap::from_sources(&grid, &fov, &sources);
    let at = Pos::new(10, 16);
    let r = LightMap::new(&grid, Pos::new(10, 10), &fov, red).get(at).unwrap();
    let b = LightMap::new(&grid, Pos::new(10, 10), &fov, blue).get(at).unwrap();
    assert_eq!(lm.get(at), Some(dalbrack::color::blend(r, b, 50)));
    assert_eq!(lm.points.len(), fov.len());
}

#[test]
fn apply_light_level_blends_or_reports_darkness() {
    let grid = open_grid(21, 21);
    let fov = Fov::new(&grid, Pos::new(10, 10), FovRange(3));
    let lm = LightMap::new(&grid, Pos::new(10, 10), &fov, LightSource { range: 3, color: Color::RGB(255, 255, 255) });
    assert_eq!(lm.apply_light_level(Pos::new(0, 0), Color::RGB(10, 20, 30)), None);
    let light = lm.get(Pos::new(10, 10)).unwrap();
    assert_eq!(
        lm.apply_light_level(Pos::new(10, 10), Color::RGB(255, 0, 0)),
        Some(dalbrack::color::blend(Color::RGB(255, 0, 0), light, 50))
    );
    assert_eq!(lm.apply_light_level(Pos::new(10, 10), Color::RGB(255, 0, 0)), Some(Color::RGB(255, 128, 128)));
}

#[test]
fn visibility_policies() {
    assert!(Vis::Any.is_visible(true, false, false));
    assert!(!Vis::Any.is_visible(false, false, false));
    assert!(Vis::CenterPlus.is_visible(false, true, true));
    assert!(!Vis::CenterPlus.is_visible(true, false, true));
    assert!(!Vis::CenterPlus.is_visible(false, true, false));
    assert!(Vis::All.is_visible(true, true, true));
    assert!(!Vis::All.is_visible(true, true, false));
}

#[test]
fn caster_skips_out_of_bounds_and_reports_occlusion() {
    let grid = with_cell(open_grid(3, 1), 1, 0, OPAQUE);
    let caster = RPACaster { from: Pos::new(0, 0), radius: 2, r_cutoff: 233, vis: Vis::CenterPlus };
    let items = caster.cast(&grid);
    for (p, _) in items.iter() {
        assert!(p.x >= 0 && p.x < 3 && p.y == 0);
    }
    assert!(items.contains(&(Pos::new(1, 0), 0)));
    assert!(items.contains(&(Pos::new(2, 0), OPAQUE)));
    assert!(!items.iter().any(|(p, op)| *p == Pos::new(2, 0) && *op < OPAQUE));
}

#[test]
fn single_partial_occluder_hides_nothing() {
    let from = Pos::new(10, 10);
    let open = Fov::new(&open_grid(21, 21), from, FovRange(8));
    for (x, y) in [(10usize, 12usize), (12, 11), (7, 7), (10, 18)] {
        let grid = with_cell(open_grid(21, 21), x, y, 50);
        let fov = Fov::new(&grid, from, FovRange(8));
        assert_eq!(fov.len(), open.len());
        for p in open.points.iter() {
            assert!(fov.contains(*p), "{p:?} hidden by a partial occluder at ({x}, {y})");
        }
    }
}
