use dalbrack::builders::{voronoi_regions_from_seeds, BuildConfig};
use dalbrack::grid::{heuristic, Grid, Pos};

#[test]
fn dist_rounds_up() {
    assert_eq!(Pos::new(0, 0).dist(Pos::new(3, 4)), 5);
    assert_eq!(Pos::new(0, 0).dist(Pos::new(1, 1)), 2);
    assert_eq!(Pos::new(2, 2).dist(Pos::new(2, 2)), 0);
    assert_eq!(Pos::new(-5, 0).dist(Pos::new(5, 0)), 10);
}

#[test]
fn heuristic_is_octile() {
    assert_eq!(heuristic(Pos::new(0, 0), Pos::new(3, 4)), 5);
    assert_eq!(heuristic(Pos::new(0, 0), Pos::new(10, 10)), 14);
    assert_eq!(heuristic(Pos::new(7, 1), Pos::new(0, 1)), 7);
}

#[test]
fn grid_indexing() {
    let mut g: Grid<u32> = Grid::new(4, 3, 7);
    assert_eq!(g.len(), 12);
    assert!(!g.is_empty());
    assert_eq!(g.idx(1, 2), 9);
    assert_eq!(g.pos_idx(Pos::new(3, 1)), 7);
    g.cells[9] = 42;
    assert_eq!(*g.cell_at(Pos::new(1, 2)), 42);
    assert_eq!(g.try_cell_at(Pos::new(1, 2)), Some(&42));
    assert_eq!(g.try_cell_at(Pos::new(4, 0)), None);
    assert_eq!(g.try_cell_at(Pos::new(0, -1)), None);
    assert!(g.contains_pos(Pos::new(3, 2)));
    assert!(!g.contains_pos(Pos::new(3, 3)));
    let empty: Grid<u32> = Grid::new(0, 5, 1);
    assert!(empty.is_empty());
}

#[test]
fn voronoi_assigns_nearest_seed() {
    let seeds = [Pos::new(0, 0), Pos::new(10, 0)];
    let points = vec![Pos::new(1, 0), Pos::new(9, 0), Pos::new(5, 0), Pos::new(6, 3)];
    let regions = voronoi_regions_from_seeds(&seeds, points);
    assert_eq!(regions, vec![vec![Pos::new(1, 0), Pos::new(5, 0)], vec![Pos::new(9, 0), Pos::new(6, 3)]]);
}

#[test]
fn voronoi_without_points() {
    let regions = voronoi_regions_from_seeds(&[], Vec::new());
    assert!(regions.is_empty());
    let regions = voronoi_regions_from_seeds(&[Pos::new(1, 1)], Vec::new());
    assert_eq!(regions, vec![Vec::<Pos>::new()]);
}

#[test]
fn build_config_defaults_to_populated() {
    assert!(BuildConfig::default().populated);
}

#[test]
fn neighbours_in_bounds_sides_first() {
    let g: Grid<u32> = Grid::new(3, 3, 0);
    assert_eq!(g.neighbouring_tiles(Pos::new(0, 0)), vec![Pos::new(1, 0), Pos::new(0, 1), Pos::new(1, 1)]);
    assert_eq!(
        g.neighbouring_tiles(Pos::new(1, 1)),
        vec![
            Pos::new(0, 1),
            Pos::new(2, 1),
            Pos::new(1, 0),
            Pos::new(1, 2),
            Pos::new(0, 0),
            Pos::new(0, 2),
            Pos::new(2, 0),
            Pos::new(2, 2),
        ]
    );
}

#[test]
fn line_between_cells() {
    let g: Grid<u32> = Grid::new(10, 10, 0);
    assert_eq!(
        g.line_between(Pos::new(0, 0), Pos::new(5, 2)),
        vec![Pos::new(0, 0), Pos::new(1, 0), Pos::new(2, 0), Pos::new(3, 1), Pos::new(4, 1), Pos::new(5, 2)]
    );
    assert_eq!(
        g.line_between(Pos::new(5, 5), Pos::new(3, 0)),
        vec![Pos::new(5, 5), Pos::new(5, 4), Pos::new(5, 3), Pos::new(4, 2), Pos::new(4, 1), Pos::new(3, 0)]
    );
    assert_eq!(g.line_between(Pos::new(2, 2), Pos::new(2, 2)), vec![Pos::new(2, 2)]);
    assert!(g.line_between(Pos::new(2, 2), Pos::new(12, 2)).is_empty());
}
