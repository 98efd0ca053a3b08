use colony_core::game_object::TilePosition;
use colony_core::grid::{BitGrid, Grid, MAX_GRID_DIM};

#[test]
fn bit_grid_works() {
    let mut grid = BitGrid::new(150, 150).unwrap();

    for y in 0..150 {
        for x in 0..150 {
            assert!(!grid.get(TilePosition::new(x, y)));
        }
    }

    grid.set(TilePosition::new(50, 30), true);
    grid.set(TilePosition::new(140, 30), true);

    for y in 0..150 {
        for x in 0..150 {
            let set = (x == 50 || x == 140) && y == 30;
            assert!(
                grid.get(TilePosition::new(x, y)) == set,
                "unexpected grid value at {x}, {y}"
            );
        }
    }
}

#[test]
fn bit_grid_clear_bit() {
    let mut grid = BitGrid::new(70, 3).unwrap();
    grid.set(TilePosition::new(65, 1), true);
    assert!(grid.get(TilePosition::new(65, 1)));
    grid.set(TilePosition::new(65, 1), false);
    assert!(!grid.get(TilePosition::new(65, 1)));
    // Clearing one bit leaves its neighbors alone.
    grid.set(TilePosition::new(64, 1), true);
    grid.set(TilePosition::new(66, 1), true);
    grid.set(TilePosition::new(65, 1), false);
    assert!(grid.get(TilePosition::new(64, 1)));
    assert!(grid.get(TilePosition::new(66, 1)));
}

#[test]
fn bit_grid_rejects_oversized_dimensions() {
    assert!(BitGrid::new(MAX_GRID_DIM + 1, 4).is_none());
    assert!(BitGrid::new(4, MAX_GRID_DIM + 1).is_none());
    assert!(BitGrid::new(MAX_GRID_DIM, 1).is_some());
}

#[test]
fn bit_grid_bounds() {
    let grid = BitGrid::new(8, 4).unwrap();
    assert_eq!(grid.size(), (8, 4));
    assert!(grid.in_bounds(TilePosition::new(0, 0)));
    assert!(grid.in_bounds(TilePosition::new(7, 3)));
    assert!(!grid.in_bounds(TilePosition::new(8, 0)));
    assert!(!grid.in_bounds(TilePosition::new(0, 4)));
    assert!(!grid.in_bounds(TilePosition::new(-1, 0)));
}

#[test]
fn value_grid_works() {
    let mut grid: Grid<u32> = Grid::new_filled(5, 4, 7).unwrap();
    assert_eq!(grid.width(), 5);
    assert_eq!(grid.height(), 4);
    for y in 0..4 {
        for x in 0..5 {
            assert_eq!(grid.get(TilePosition::new(x, y)), 7);
        }
    }
    grid.set(TilePosition::new(2, 3), 42);
    assert_eq!(grid.get(TilePosition::new(2, 3)), 42);
    assert_eq!(grid.get(TilePosition::new(3, 3)), 7);
}

#[test]
fn manhattan_distance_works() {
    let a = TilePosition::new(-3, 4);
    let b = TilePosition::new(2, -1);
    assert_eq!(a.manhattan_distance(b), 10);
    assert_eq!(b.manhattan_distance(a), 10);
    assert_eq!(a.manhattan_distance(a), 0);
}
