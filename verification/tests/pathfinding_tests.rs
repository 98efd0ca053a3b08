use colony_core::game_object::TilePosition;
use colony_core::grid::BitGrid;
use colony_core::pathfinding::{find_path_to, find_path_to_any, Direction, Path};

fn step(pos: (i16, i16), dir: Direction) -> (i16, i16) {
    match dir {
        Direction::Up => (pos.0, pos.1 - 1),
        Direction::Down => (pos.0, pos.1 + 1),
        Direction::Left => (pos.0 - 1, pos.1),
        Direction::Right => (pos.0 + 1, pos.1),
    }
}

/// A plain-queue reference search for cross-checking path lengths.
fn oracle_distances(walls: &BitGrid, from: (i16, i16), width: i16, height: i16) -> Vec<Vec<i32>> {
    let mut dist = vec![vec![-1i32; width as usize]; height as usize];
    let mut queue: Vec<(i16, i16)> = Vec::new();
    dist[from.1 as usize][from.0 as usize] = 0;
    queue.push(from);
    let mut head: usize = 0;
    while head < queue.len() {
        let (x, y) = queue[head];
        head += 1;
        let d = dist[y as usize][x as usize];
        for (nx, ny) in [(x, y - 1), (x, y + 1), (x + 1, y), (x - 1, y)] {
            if nx < 0 || ny < 0 || nx >= width || ny >= height {
                continue;
            }
            if dist[ny as usize][nx as usize] >= 0 {
                continue;
            }
            if walls.get(TilePosition::new(nx, ny)) {
                continue;
            }
            dist[ny as usize][nx as usize] = d + 1;
            queue.push((nx, ny));
        }
    }
    dist
}

#[test]
fn pathfinding_seems_to_work() {
    // The map (start is @, end is *, . is walkable):
    // . . . . .
    // @ # . # #
    // . # . # *
    // . . . . .
    let mut expected_path = Path::default();
    expected_path.add_step(Direction::Down);
    expected_path.add_step(Direction::Down);
    expected_path.add_step(Direction::Right);
    expected_path.add_step(Direction::Right);
    expected_path.add_step(Direction::Right);
    expected_path.add_step(Direction::Right);
    expected_path.add_step(Direction::Up);

    let mut map = BitGrid::new(5, 4).unwrap();
    map.set(TilePosition::new(1, 1), true);
    map.set(TilePosition::new(1, 2), true);
    map.set(TilePosition::new(3, 1), true);
    map.set(TilePosition::new(3, 2), true);
    map.set(TilePosition::new(4, 1), true);

    let path = find_path_to(TilePosition::new(0, 1), TilePosition::new(4, 2), false, &map);
    assert!(path.is_some(), "should be able to find the way");
    assert_eq!(
        expected_path.len(),
        path.unwrap().len(),
        "did not find the shortest path"
    );
}

#[test]
fn pathfinding_exact_steps_on_fixture() {
    // Same fixture; the seven steps are down, down, right x4, up.
    let mut map = BitGrid::new(5, 4).unwrap();
    for (x, y) in [(1, 1), (1, 2), (3, 1), (3, 2), (4, 1)] {
        map.set(TilePosition::new(x, y), true);
    }
    let path = find_path_to(TilePosition::new(0, 1), TilePosition::new(4, 2), false, &map)
        .expect("fixture path should exist");
    let expected = [
        Direction::Down,
        Direction::Down,
        Direction::Right,
        Direction::Right,
        Direction::Right,
        Direction::Right,
        Direction::Up,
    ];
    assert_eq!(path.len(), 7);
    for (i, dir) in expected.iter().enumerate() {
        assert_eq!(path.get_step(i), *dir, "step {i} differs");
    }
}

#[test]
fn path_to_self_is_empty() {
    let map = BitGrid::new(4, 4).unwrap();
    let path = find_path_to(TilePosition::new(2, 2), TilePosition::new(2, 2), false, &map).unwrap();
    assert!(path.is_empty());
}

#[test]
fn out_of_bounds_origin_finds_nothing() {
    let map = BitGrid::new(4, 4).unwrap();
    assert!(find_path_to(TilePosition::new(-1, 0), TilePosition::new(2, 2), false, &map).is_none());
}

#[test]
fn unreachable_destination_finds_nothing() {
    let mut map = BitGrid::new(5, 5).unwrap();
    // Wall off the right column entirely.
    for y in 0..5 {
        map.set(TilePosition::new(3, y), true);
    }
    assert!(find_path_to(TilePosition::new(0, 0), TilePosition::new(4, 2), false, &map).is_none());
}

#[test]
fn wall_destination_needs_allowance() {
    let mut map = BitGrid::new(5, 5).unwrap();
    map.set(TilePosition::new(2, 2), true);
    let to_wall = find_path_to(TilePosition::new(0, 2), TilePosition::new(2, 2), false, &map);
    assert!(to_wall.is_none());
    let next_to_wall =
        find_path_to(TilePosition::new(0, 2), TilePosition::new(2, 2), true, &map).unwrap();
    // The path stops on the open cell beside the blocked destination.
    assert_eq!(next_to_wall.len(), 1);
}

#[test]
fn path_lengths_match_reference_search() {
    // Deterministic pseudo-random small maps, checked against a plain
    // reference search from a fixed origin to every reachable cell.
    let mut rng: u64 = 0x2545F4914F6CDD1D;
    for _round in 0..12 {
        let (width, height): (i16, i16) = (12, 10);
        let mut map = BitGrid::new(width as usize, height as usize).unwrap();
        for y in 0..height {
            for x in 0..width {
                rng = rng.wrapping_mul(6364136223846793005).wrapping_add(1442695040888963407);
                if (x, y) != (0, 0) && (rng >> 33) % 10 < 3 {
                    map.set(TilePosition::new(x, y), true);
                }
            }
        }
        let dist = oracle_distances(&map, (0, 0), width, height);
        for y in 0..height {
            for x in 0..width {
                let d = dist[y as usize][x as usize];
                let path = find_path_to(
                    TilePosition::new(0, 0),
                    TilePosition::new(x, y),
                    false,
                    &map,
                );
                if d < 0 {
                    assert!(path.is_none(), "found a path to unreachable ({x}, {y})");
                } else {
                    let path = path.expect("reachable cell should have a path");
                    assert_eq!(path.len() as i32, d, "wrong path length to ({x}, {y})");
                    // The returned path must actually walk there over open
                    // cells.
                    let mut pos = (0i16, 0i16);
                    for i in 0..path.len() as usize {
                        pos = step(pos, path.get_step(i));
                        assert!(pos.0 >= 0 && pos.1 >= 0 && pos.0 < width && pos.1 < height);
                        assert!(!map.get(TilePosition::new(pos.0, pos.1)));
                    }
                    assert_eq!(pos, (x, y));
                }
            }
        }
    }
}

#[test]
fn multi_destination_no_longer_than_nearest() {
    let mut rng: u64 = 0x9E3779B97F4A7C15;
    for _round in 0..12 {
        let (width, height): (i16, i16) = (12, 10);
        let mut map = BitGrid::new(width as usize, height as usize).unwrap();
        let mut mask = BitGrid::new(width as usize, height as usize).unwrap();
        let mut dests: Vec<(i16, i16)> = Vec::new();
        for y in 0..height {
            for x in 0..width {
                rng = rng.wrapping_mul(6364136223846793005).wrapping_add(1442695040888963407);
                let roll = (rng >> 33) % 20;
                if (x, y) != (0, 0) && roll < 5 {
                    map.set(TilePosition::new(x, y), true);
                } else if (x, y) != (0, 0) && roll >= 18 {
                    mask.set(TilePosition::new(x, y), true);
                    dests.push((x, y));
                }
            }
        }
        if dests.is_empty() {
            continue;
        }
        let any = find_path_to_any(TilePosition::new(0, 0), &mask, false, &map);
        let mut best: Option<u8> = None;
        for (x, y) in &dests {
            if let Some(p) =
                find_path_to(TilePosition::new(0, 0), TilePosition::new(*x, *y), false, &map)
            {
                let len = p.len();
                if best.is_none() || len < best.unwrap() {
                    best = Some(len);
                }
            }
        }
        match (any, best) {
            (Some(p), Some(b)) => {
                assert!(p.len() <= b, "multi-destination path longer than nearest");
            }
            (None, Some(_)) => panic!("missed a reachable destination"),
            (_, None) => {}
        }
    }
}

#[test]
fn reverse_twice_restores_steps() {
    let mut path = Path::default();
    for dir in [
        Direction::Up,
        Direction::Right,
        Direction::Right,
        Direction::Down,
        Direction::Left,
        Direction::Up,
        Direction::Up,
        Direction::Right,
        Direction::Down,
    ] {
        assert!(path.add_step(dir));
    }
    let twice = path.reverse().reverse();
    assert_eq!(twice.len(), path.len());
    for i in 0..path.len() as usize {
        assert_eq!(twice.get_step(i), path.get_step(i));
    }
}

#[test]
fn reverse_turns_steps_around() {
    let mut path = Path::default();
    path.add_step(Direction::Up);
    path.add_step(Direction::Right);
    let reversed = path.reverse();
    assert_eq!(reversed.len(), 2);
    assert_eq!(reversed.get_step(0), Direction::Left);
    assert_eq!(reversed.get_step(1), Direction::Down);
}

#[test]
fn path_capacity_is_224_steps() {
    let mut path = Path::default();
    for i in 0..224 {
        assert!(!path.is_full());
        assert!(path.add_step(Direction::Left), "step {i} should fit");
    }
    assert!(path.is_full());
    assert_eq!(path.len(), 224);
    assert!(!path.add_step(Direction::Up));
    assert_eq!(path.len(), 224);
    assert_eq!(path.get_step(223), Direction::Left);
}

#[test]
fn path_iterator_yields_steps_in_order() {
    let mut path = Path::default();
    path.add_step(Direction::Down);
    path.add_step(Direction::Left);
    path.add_step(Direction::Up);
    let mut iter = path.iterate();
    assert_eq!(iter.next(), Some(Direction::Down));
    assert_eq!(iter.next(), Some(Direction::Left));
    assert_eq!(iter.next(), Some(Direction::Up));
    assert_eq!(iter.next(), None);
}

#[test]
fn direction_round_trips() {
    for dir in [Direction::Up, Direction::Down, Direction::Left, Direction::Right] {
        assert_eq!(Direction::from_u8(dir.to_u8()), dir);
        assert_eq!(dir.opposite().opposite(), dir);
        assert_eq!(
            dir.next_clockwise().next_clockwise().next_clockwise().next_clockwise(),
            dir
        );
    }
    assert_eq!(Direction::Up.next_clockwise(), Direction::Right);
    assert_eq!(Direction::Right.next_clockwise(), Direction::Down);
}

#[test]
fn path_iterator_walks_from_both_ends() {
    let mut path = Path::default();
    path.add_step(Direction::Down);
    path.add_step(Direction::Left);
    path.add_step(Direction::Up);
    path.add_step(Direction::Right);
    let mut iter = path.iterate();
    assert_eq!(iter.next_back(), Some(Direction::Right));
    assert_eq!(iter.next(), Some(Direction::Down));
    assert_eq!(iter.next_back(), Some(Direction::Up));
    assert_eq!(iter.next(), Some(Direction::Left));
    assert_eq!(iter.next(), None);
    assert_eq!(iter.next_back(), None);
}
