use colony_core::game_object::{
    Character, CharacterStatus, Collider, Personality, Resource, Stockpile, StockpileReliantTag,
    TilePosition,
};
use colony_core::grid::Grid;
use colony_core::scene::{build_walls, Scene};
use colony_core::tilemap::Tile;

fn plain_status(brain_index: u8) -> CharacterStatus {
    CharacterStatus {
        brain_index,
        oxygen: CharacterStatus::MAX_OXYGEN,
        oxygen_depletion_amount: CharacterStatus::BASE_OXYGEN_DEPLETION_AMOUNT,
        morale: CharacterStatus::MAX_MORALE,
        morale_depletion_amount: CharacterStatus::BASE_MORALE_DEPLETION_AMOUNT,
        morale_relaxing_increment: CharacterStatus::BASE_MORALE_RELAXING_INCREMENT,
        personality: Personality::zeroed(),
    }
}

#[test]
fn find_character_returns_first_match() {
    let mut scene = Scene::new(8);
    for (index, x) in [(4u8, 1i16), (7, 2), (4, 3)] {
        scene
            .add_character(Character {
                status: plain_status(index),
                position: TilePosition::new(x, 0),
                held: Stockpile::zeroed(),
                collider: Collider::not_walkable(),
            })
            .unwrap();
    }
    let found = scene.find_character(4).unwrap();
    assert_eq!(scene.entities[found].position, TilePosition::new(1, 0));
    assert!(scene.find_character(9).is_none());
}

#[test]
fn spawning_past_capacity_returns_the_pile() {
    let mut scene = Scene::new(1);
    let pile = Resource {
        position: TilePosition::new(0, 0),
        stockpile: Stockpile::zeroed(),
        stockpile_reliant: StockpileReliantTag,
    };
    assert!(scene.spawn_resource(pile).is_ok());
    let second = Resource {
        position: TilePosition::new(1, 0),
        stockpile: Stockpile::zeroed(),
        stockpile_reliant: StockpileReliantTag,
    };
    let rejected = scene.spawn_resource(second).unwrap_err();
    assert_eq!(rejected.position, TilePosition::new(1, 0));
    assert_eq!(scene.entities.len(), 1);
}

#[test]
fn walls_combine_terrain_and_colliders() {
    let mut tiles: Grid<Tile> = Grid::new_filled(6, 5, Tile::Seafloor).unwrap();
    tiles.set(TilePosition::new(2, 2), Tile::Wall);
    tiles.set(TilePosition::new(3, 1), Tile::GeothermalVent);
    let mut scene = Scene::new(8);
    scene
        .add_character(Character {
            status: plain_status(0),
            position: TilePosition::new(4, 4),
            held: Stockpile::zeroed(),
            collider: Collider::not_walkable(),
        })
        .unwrap();
    scene
        .spawn_resource(Resource {
            position: TilePosition::new(1, 1),
            stockpile: Stockpile::zeroed(),
            stockpile_reliant: StockpileReliantTag,
        })
        .unwrap();
    let walls = build_walls(&tiles, &scene).unwrap();
    for y in 0..5 {
        for x in 0..6 {
            let expect = (x, y) == (2, 2) || (x, y) == (3, 1) || (x, y) == (4, 4);
            assert_eq!(
                walls.get(TilePosition::new(x, y)),
                expect,
                "wrong wall bit at ({x}, {y})"
            );
        }
    }
}
