//! A plain-value model of the component store: the entities the planner
//! reads and mutates, in the stable order the tick orchestrator iterates
//! them (characters, then job stations, then loose resource piles).

use vstd::prelude::*;
use crate::game_object::{
    Character, CharacterStatus, Collider, JobStation, JobStationStatus, Resource, Stockpile,
    TilePosition,
};
use crate::grid::{BitGrid, Grid};
use crate::tilemap::Tile;

verus! {

/// One entity with the components the simulation core touches. Components
/// that an entity kind does not carry hold `None` or a zero collider.
#[derive(Clone, Copy, PartialEq, Eq, Debug)]
pub struct Entity {
    pub position: TilePosition,
    pub stockpile: Stockpile,
    pub character: Option<CharacterStatus>,
    pub job_station: Option<JobStationStatus>,
    pub collider: Collider,
    pub stockpile_reliant: bool,
}

/// The queryable world state handed to the planner each tick.
pub struct Scene {
    pub entities: Vec<Entity>,
    pub entity_capacity: usize,
}

impl Scene {
    /// Every stockpile is well-formed and the entity table fits its
    /// capacity.
    pub open spec fn wf(self) -> bool {
        &&& self.entities@.len() <= self.entity_capacity
        &&& forall|i: int|
            0 <= i < self.entities@.len() ==> (#[trigger] self.entities@[i]).stockpile.wf()
    }

    /// Every entity stands on a cell of the given grid.
    pub open spec fn positions_in_bounds(self, walls: BitGrid) -> bool {
        forall|i: int|
            0 <= i < self.entities@.len() ==> walls.spec_in_bounds(
                (#[trigger] self.entities@[i]).position,
            )
    }

    /// An empty world that will hold at most `entity_capacity` entities.
    pub fn new(entity_capacity: usize) -> (r: Scene)
        ensures
            r.wf(),
            r.entities@ == Seq::<Entity>::empty(),
            r.entity_capacity == entity_capacity,
    {
        Scene { entities: Vec::new(), entity_capacity }
    }

    /// Adds a colonist to the world; fails with the value when the entity
    /// table is full.
    pub fn add_character(&mut self, character: Character) -> (r: Result<(), Character>)
        requires
            old(self).wf(),
            character.held.wf(),
        ensures
            final(self).wf(),
            final(self).entity_capacity == old(self).entity_capacity,
            old(self).entities@.len() >= old(self).entity_capacity ==> (r matches Err(c) && c
                == character && final(self).entities@ == old(self).entities@),
            old(self).entities@.len() < old(self).entity_capacity ==> (r is Ok && final(self).entities@ == old(self).entities@.push(
                Entity {
                    position: character.position,
                    stockpile: character.held,
                    character: Some(character.status),
                    job_station: None,
                    collider: character.collider,
                    stockpile_reliant: false,
                },
            )),
    {
        if self.entities.len() >= self.entity_capacity {
            return Err(character);
        }
        self.entities.push(
            Entity {
                position: character.position,
                stockpile: character.held,
                character: Some(character.status),
                job_station: None,
                collider: character.collider,
                stockpile_reliant: false,
            },
        );
        Ok(())
    }

    /// Adds a job station to the world; fails with the value when the
    /// entity table is full.
    pub fn add_job_station(&mut self, station: JobStation) -> (r: Result<(), JobStation>)
        requires
            old(self).wf(),
            station.stockpile.wf(),
        ensures
            final(self).wf(),
            final(self).entity_capacity == old(self).entity_capacity,
            old(self).entities@.len() >= old(self).entity_capacity ==> (r matches Err(s) && s
                == station && final(self).entities@ == old(self).entities@),
            old(self).entities@.len() < old(self).entity_capacity ==> (r is Ok && final(self).entities@ == old(self).entities@.push(
                Entity {
                    position: station.position,
                    stockpile: station.stockpile,
                    character: None,
                    job_station: Some(station.status),
                    collider: station.collider,
                    stockpile_reliant: false,
                },
            )),
    {
        if self.entities.len() >= self.entity_capacity {
            return Err(station);
        }
        self.entities.push(
            Entity {
                position: station.position,
                stockpile: station.stockpile,
                character: None,
                job_station: Some(station.status),
                collider: station.collider,
                stockpile_reliant: false,
            },
        );
        Ok(())
    }

    /// Spawns a loose resource pile; fails with the value when the entity
    /// table is full.
    pub fn spawn_resource(&mut self, resource: Resource) -> (r: Result<(), Resource>)
        requires
            old(self).wf(),
            resource.stockpile.wf(),
        ensures
            final(self).wf(),
            final(self).entity_capacity == old(self).entity_capacity,
            old(self).entities@.len() >= old(self).entity_capacity ==> (r matches Err(p) && p
                == resource && final(self).entities@ == old(self).entities@),
            old(self).entities@.len() < old(self).entity_capacity ==> (r is Ok && final(self).entities@ == old(self).entities@.push(
                Entity {
                    position: resource.position,
                    stockpile: resource.stockpile,
                    character: None,
                    job_station: None,
                    collider: Collider(0),
                    stockpile_reliant: true,
                },
            )),
    {
        if self.entities.len() >= self.entity_capacity {
            return Err(resource);
        }
        self.entities.push(
            Entity {
                position: resource.position,
                stockpile: resource.stockpile,
                character: None,
                job_station: None,
                collider: Collider(0),
                stockpile_reliant: true,
            },
        );
        Ok(())
    }

    /// The index of the first character entity controlled by the given
    /// brain, if there is one.
    pub fn find_character(&self, brain_index: u8) -> (r: Option<usize>)
        ensures
            r is None ==> forall|i: int|
                0 <= i < self.entities@.len() ==> !entity_is_brain(
                    #[trigger] self.entities@[i],
                    brain_index,
                ),
            r matches Some(i) ==> {
                &&& i < self.entities@.len()
                &&& entity_is_brain(self.entities@[i as int], brain_index)
                &&& forall|j: int|
                    0 <= j < i ==> !entity_is_brain(#[trigger] self.entities@[j], brain_index)
            },
    {
        let n: usize = self.entities.len();
        let mut i: usize = 0;
        while i < n
            invariant
                n == self.entities@.len(),
                i <= n,
                forall|j: int|
                    0 <= j < i ==> !entity_is_brain(#[trigger] self.entities@[j], brain_index),
            decreases n - i,
        {
            let found: bool = match &self.entities[i].character {
                Some(status) => status.brain_index == brain_index,
                None => false,
            };
            if found {
                return Some(i);
            }
            i = i + 1;
        }
        None
    }
}

/// Whether an entity is the character controlled by the given brain.
pub open spec fn entity_is_brain(e: Entity, brain_index: u8) -> bool {
    e.character matches Some(status) && status.brain_index == brain_index
}

/// Whether any of the first `upto` entities blocks the cell (x, y).
pub open spec fn entity_blocks_upto(scene: Scene, upto: int, x: int, y: int) -> bool {
    exists|i: int|
        0 <= i < upto && (#[trigger] scene.entities@[i]).position.x as int == x
            && scene.entities@[i].position.y as int == y
            && scene.entities@[i].collider.spec_is_not_walkable()
}

/// Whether the cell (x, y) is blocked: by terrain, or by any entity with a
/// blocking collider standing on it.
pub open spec fn wall_cell(tiles: Grid<Tile>, scene: Scene, x: int, y: int) -> bool {
    tiles.spec_get(x, y).spec_blocks_movement() || entity_blocks_upto(
        scene,
        scene.entities@.len() as int,
        x,
        y,
    )
}

/// Rebuilds the per-tick occupancy grid: a cell is blocked when its terrain
/// blocks movement or any entity with a blocking collider stands on it.
/// `None` when the tile grid's dimensions exceed what a bit grid supports.
pub fn build_walls(tiles: &Grid<Tile>, scene: &Scene) -> (r: Option<BitGrid>)
    requires
        tiles.wf(),
        scene.wf(),
    ensures
        r is Some,
        r matches Some(g) ==> {
            &&& g.wf()
            &&& g.spec_width() == tiles.spec_width()
            &&& g.spec_height() == tiles.spec_height()
            &&& forall|x: int, y: int|
                0 <= x < g.spec_width() && 0 <= y < g.spec_height() ==> #[trigger] g.spec_get(x, y)
                    == wall_cell(*tiles, *scene, x, y)
        },
{
    let (width, height) = tiles.size();
    proof {
        tiles.lemma_dims();
    }
    let mut walls: BitGrid = match BitGrid::new(width, height) {
        Some(g) => g,
        None => vstd::pervasive::unreached(),
    };
    let mut y: usize = 0;
    while y < height
        invariant
            walls.wf(),
            walls.spec_width() == tiles.spec_width(),
            walls.spec_height() == tiles.spec_height(),
            tiles.wf(),
            width == tiles.spec_width(),
            height == tiles.spec_height(),
            width <= 32767,
            height <= 32767,
            y <= height,
            forall|a: int, b: int|
                0 <= a < width as int && 0 <= b < y as int ==> #[trigger] walls.spec_get(a, b)
                    == tiles.spec_get(a, b).spec_blocks_movement(),
            forall|a: int, b: int|
                0 <= a < width as int && y as int <= b < height as int ==> !(
                #[trigger] walls.spec_get(a, b)),
        decreases height - y,
    {
        let mut x: usize = 0;
        while x < width
            invariant
                walls.wf(),
                walls.spec_width() == tiles.spec_width(),
                walls.spec_height() == tiles.spec_height(),
                tiles.wf(),
                width == tiles.spec_width(),
                height == tiles.spec_height(),
                width <= 32767,
                height <= 32767,
                x <= width,
                y < height,
                forall|a: int, b: int|
                    0 <= a < width as int && 0 <= b < y as int ==> #[trigger] walls.spec_get(a, b)
                        == tiles.spec_get(a, b).spec_blocks_movement(),
                forall|a: int|
                    0 <= a < x as int ==> #[trigger] walls.spec_get(a, y as int) == tiles.spec_get(
                        a,
                        y as int,
                    ).spec_blocks_movement(),
                forall|a: int|
                    x as int <= a < width as int ==> !(#[trigger] walls.spec_get(a, y as int)),
                forall|a: int, b: int|
                    0 <= a < width as int && (y as int) < b < height as int ==> !(
                    #[trigger] walls.spec_get(a, b)),
            decreases width - x,
        {
            let pos = TilePosition { x: x as i16, y: y as i16 };
            if tiles.get(pos).blocks_movement() {
                walls.set(pos, true);
            }
            x = x + 1;
        }
        y = y + 1;
    }
    let n: usize = scene.entities.len();
    let mut i: usize = 0;
    while i < n
        invariant
            walls.wf(),
            walls.spec_width() == tiles.spec_width(),
            walls.spec_height() == tiles.spec_height(),
            tiles.wf(),
            n == scene.entities@.len(),
            i <= n,
            forall|a: int, b: int|
                0 <= a < walls.spec_width() && 0 <= b < walls.spec_height()
                    ==> #[trigger] walls.spec_get(a, b) == (tiles.spec_get(
                    a,
                    b,
                ).spec_blocks_movement() || entity_blocks_upto(*scene, i as int, a, b)),
        decreases n - i,
    {
        let e = &scene.entities[i];
        let blocking: bool = e.collider.is_not_walkable();
        let in_grid: bool = walls.in_bounds(e.position);
        if blocking && in_grid {
            walls.set(e.position, true);
        }
        proof {
            assert forall|a: int, b: int|
                0 <= a < walls.spec_width() && 0 <= b
                    < walls.spec_height() implies #[trigger] walls.spec_get(a, b) == (
            tiles.spec_get(a, b).spec_blocks_movement() || entity_blocks_upto(
                *scene,
                i as int + 1,
                a,
                b,
            )) by {
                let e2 = scene.entities@[i as int];
                if e2.position.x as int == a && e2.position.y as int == b
                    && e2.collider.spec_is_not_walkable() {
                    assert(entity_blocks_upto(*scene, i as int + 1, a, b));
                } else {
                    assert(entity_blocks_upto(*scene, i as int + 1, a, b)
                        == entity_blocks_upto(*scene, i as int, a, b)) by {
                        if entity_blocks_upto(*scene, i as int + 1, a, b) {
                            let j = choose|j: int|
                                0 <= j < i as int + 1 && (#[trigger] scene.entities@[j]).position.x
                                    as int == a && scene.entities@[j].position.y as int == b
                                    && scene.entities@[j].collider.spec_is_not_walkable();
                            assert(j < i as int);
                            assert(entity_blocks_upto(*scene, i as int, a, b));
                        }
                    }
                }
            }
        }
        i = i + 1;
    }
    Some(walls)
}

} // verus!
