//! Per-agent behavior planning: a bounded goal stack driven once per tick,
//! consuming path-finder and task-broker results to decide one tick of
//! work, hauling, walking, resting, or life support.

use vstd::prelude::*;
use crate::GameTicks;
use crate::Sprite;
use crate::game_object::{
    CharacterStatus, JobStationVariant, Personality, Resource, ResourceVariant, Stockpile,
    StockpileReliantTag, TilePosition,
};
use crate::grid::BitGrid;
use crate::notifications::{NotificationId, NotificationSet};
use crate::pathfinding::{Direction, Path, find_path_to, find_path_to_any};
use crate::scene::{Entity, Scene, entity_is_brain};

verus! {

/// Upper bound on the goal stack's depth.
pub const MAX_GOALS: usize = 8;

/// An outstanding request to move an amount of one resource to a job
/// station. Owned by the task broker while advertised, and by the hauling
/// agent's goal while claimed.
#[derive(Clone, Copy, PartialEq, Eq, Debug)]
pub struct HaulDescription {
    pub resource: ResourceVariant,
    pub amount: u8,
    pub destination: (JobStationVariant, TilePosition),
}

/// One entry of an agent's goal stack.
#[derive(Debug)]
pub enum Goal {
    Work { haul_wait_timeout: Option<(NotificationId, GameTicks)>, job: JobStationVariant },
    Haul { description: HaulDescription },
    FollowPath { from: TilePosition, path: Path },
    Relax { relax_start_tick: GameTicks, walk_aabb: (TilePosition, TilePosition) },
    RefillOxygen,
}

/// Paths stored inside a goal are well-formed.
pub open spec fn goal_wf(g: Goal) -> bool {
    match g {
        Goal::FollowPath { from, path } => path.wf(),
        _ => true,
    }
}

impl Goal {
    /// The status sprite shown for this goal, if any.
    pub fn sprite(&self, personality: Personality) -> (r: Option<Sprite>)
        ensures
            r == match *self {
                Goal::Work { .. } => Some(Sprite::GoalWork),
                Goal::Haul { .. } => Some(Sprite::GoalHaul),
                Goal::FollowPath { .. } => None::<Sprite>,
                Goal::Relax { .. } => if personality.spec_contains(
                    Personality::spec_kaomoji(),
                ) {
                    Some(Sprite::GoalRelaxAlt)
                } else {
                    Some(Sprite::GoalRelax)
                },
                Goal::RefillOxygen => Some(Sprite::GoalOxygen),
            },
    {
        match self {
            Goal::Work { .. } => Some(Sprite::GoalWork),
            Goal::Haul { .. } => Some(Sprite::GoalHaul),
            Goal::FollowPath { .. } => None,
            Goal::Relax { .. } => {
                if personality.contains(Personality::kaomoji()) {
                    Some(Sprite::GoalRelaxAlt)
                } else {
                    Some(Sprite::GoalRelax)
                }
            },
            Goal::RefillOxygen => Some(Sprite::GoalOxygen),
        }
    }
}

/// An agent's standing role, set from outside and read when the goal stack
/// empties.
#[derive(Clone, Copy, PartialEq, Eq, Structural, Debug)]
pub enum Occupation {
    Idle,
    Hauler,
    Operator(JobStationVariant),
}

impl Occupation {
    /// The management-view rotation order: idle, hauler, energy operator,
    /// oxygen operator.
    pub open spec fn spec_next(self) -> Occupation {
        if self == Occupation::Idle {
            Occupation::Hauler
        } else if self == Occupation::Hauler {
            Occupation::Operator(JobStationVariant::spec_energy_generator())
        } else if self == Occupation::Operator(JobStationVariant::spec_energy_generator()) {
            Occupation::Operator(JobStationVariant::spec_oxygen_generator())
        } else if self == Occupation::Operator(JobStationVariant::spec_oxygen_generator()) {
            Occupation::Idle
        } else {
            Occupation::Idle
        }
    }

    pub open spec fn spec_previous(self) -> Occupation {
        if self == Occupation::Idle {
            Occupation::Operator(JobStationVariant::spec_oxygen_generator())
        } else if self == Occupation::Hauler {
            Occupation::Idle
        } else if self == Occupation::Operator(JobStationVariant::spec_energy_generator()) {
            Occupation::Hauler
        } else if self == Occupation::Operator(JobStationVariant::spec_oxygen_generator()) {
            Occupation::Operator(JobStationVariant::spec_energy_generator())
        } else {
            Occupation::Idle
        }
    }

    pub fn next(self) -> (r: Occupation)
        ensures
            r == self.spec_next(),
    {
        if self == Occupation::Idle {
            Occupation::Hauler
        } else if self == Occupation::Hauler {
            Occupation::Operator(JobStationVariant::energy_generator())
        } else if self == Occupation::Operator(JobStationVariant::energy_generator()) {
            Occupation::Operator(JobStationVariant::oxygen_generator())
        } else {
            Occupation::Idle
        }
    }

    pub fn previous(self) -> (r: Occupation)
        ensures
            r == self.spec_previous(),
    {
        if self == Occupation::Idle {
            Occupation::Operator(JobStationVariant::oxygen_generator())
        } else if self == Occupation::Hauler {
            Occupation::Idle
        } else if self == Occupation::Operator(JobStationVariant::energy_generator()) {
            Occupation::Hauler
        } else if self == Occupation::Operator(JobStationVariant::oxygen_generator()) {
            Occupation::Operator(JobStationVariant::energy_generator())
        } else {
            Occupation::Idle
        }
    }

    /// The management-view sprite for this occupation, if it has one.
    pub fn sprite(&self, _personality: Personality) -> (r: Option<Sprite>)
        ensures
            *self == Occupation::Idle ==> r == Some(Sprite::OccupationIdle),
            *self == Occupation::Hauler ==> r == Some(Sprite::OccupationHauler),
            *self == Occupation::Operator(JobStationVariant::spec_energy_generator()) ==> r
                == Some(Sprite::OccupationWorkEnergy),
            *self == Occupation::Operator(JobStationVariant::spec_oxygen_generator()) ==> r
                == Some(Sprite::OccupationWorkOxygen),
    {
        match self {
            Occupation::Idle => Some(Sprite::OccupationIdle),
            Occupation::Hauler => Some(Sprite::OccupationHauler),
            Occupation::Operator(variant) => {
                if *variant == JobStationVariant::energy_generator() {
                    Some(Sprite::OccupationWorkEnergy)
                } else if *variant == JobStationVariant::oxygen_generator() {
                    Some(Sprite::OccupationWorkOxygen)
                } else {
                    None
                }
            },
        }
    }
}

/// What `seahash::hash` returns for a byte string; the hash is portable and
/// depends on the bytes alone.
pub uninterp spec fn seahash_of(bytes: Seq<u8>) -> u64;

/// Relies on seahash::hash: a stable, portable hash whose output is a
/// function of the input bytes alone.
#[verifier::external_body]
fn hash_bytes(bytes: &Vec<u8>) -> (r: u64)
    ensures
        r == seahash_of(bytes@),
{
    seahash::hash(bytes.as_slice())
}

/// The bit pattern of an i16, as the unsigned value with the same low 16
/// bits.
pub open spec fn spec_u16_bits(v: i16) -> u16 {
    (if v >= 0 {
        v as int
    } else {
        v as int + 0x10000
    }) as u16
}

/// Byte `i` of a u64 in little-endian order.
pub open spec fn spec_u64_byte(v: u64, i: int) -> u8 {
    ((v >> ((8 * i) as u64)) & 0xff) as u8
}

/// The byte string hashed to derive an agent's deterministic wander seed:
/// the brain index, the position's coordinates, and the tick, all
/// little-endian.
pub open spec fn relax_seed(brain_index: u8, position: TilePosition, tick: GameTicks) -> Seq<
    u8,
> {
    seq![
        brain_index,
        (spec_u16_bits(position.x) & 0xff) as u8,
        (spec_u16_bits(position.x) >> 8) as u8,
        (spec_u16_bits(position.y) & 0xff) as u8,
        (spec_u16_bits(position.y) >> 8) as u8,
    ] + Seq::new(8, |i: int| spec_u64_byte(tick, i))
}

/// The low and high byte of an i16's bit pattern.
fn i16_le_bytes(v: i16) -> (r: (u8, u8))
    ensures
        r.0 == (spec_u16_bits(v) & 0xff) as u8,
        r.1 == (spec_u16_bits(v) >> 8) as u8,
{
    let bits: u16 = if v >= 0 {
        v as u16
    } else {
        (v as i32 + 0x10000) as u16
    };
    proof {
        let b = spec_u16_bits(v);
        assert(b & 0xff < 256 && b >> 8 < 256) by (bit_vector);
    }
    ((bits & 0xff) as u8, (bits >> 8) as u8)
}

/// The agent's deterministic wander seed bytes.
fn relax_seed_bytes(brain_index: u8, position: TilePosition, tick: GameTicks) -> (r: Vec<u8>)
    ensures
        r@ == relax_seed(brain_index, position, tick),
{
    let mut bytes: Vec<u8> = Vec::new();
    bytes.push(brain_index);
    let (xl, xh) = i16_le_bytes(position.x);
    let (yl, yh) = i16_le_bytes(position.y);
    bytes.push(xl);
    bytes.push(xh);
    bytes.push(yl);
    bytes.push(yh);
    let mut i: u8 = 0;
    while i < 8
        invariant
            i <= 8,
            bytes@.len() == 5 + i,
            bytes@.subrange(0, 5) =~= relax_seed(brain_index, position, tick).subrange(0, 5),
            forall|j: int| 0 <= j < i ==> bytes@[5 + j] == spec_u64_byte(tick, j),
        decreases 8 - i,
    {
        let shift: u64 = 8 * (i as u64);
        let byte_val: u64 = (tick >> shift) & 0xff;
        proof {
            assert((tick >> shift) & 0xff < 256) by (bit_vector);
        }
        bytes.push(byte_val as u8);
        i = i + 1;
    }
    proof {
        let seed = relax_seed(brain_index, position, tick);
        assert(seed.len() == 13);
        assert forall|j: int| 0 <= j < 13 implies bytes@[j] == seed[j] by {
            if j < 5 {
                assert(bytes@.subrange(0, 5)[j] == bytes@[j]);
                assert(seed.subrange(0, 5)[j] == seed[j]);
            } else {
                assert(bytes@[5 + (j - 5)] == spec_u64_byte(tick, j - 5));
            }
        }
        assert(bytes@ =~= seed);
    }
    bytes
}

/// The wander target picked while relaxing: a cell inside the stored
/// bounding box, chosen by hashing the agent id, position, and tick.
pub open spec fn spec_relax_target(
    brain_index: u8,
    position: TilePosition,
    tick: GameTicks,
    walk_aabb: (TilePosition, TilePosition),
) -> TilePosition {
    let h = (seahash_of(relax_seed(brain_index, position, tick)) >> 32) as int;
    let minx = if walk_aabb.0.x <= walk_aabb.1.x {
        walk_aabb.0.x as int
    } else {
        walk_aabb.1.x as int
    };
    let maxx = if walk_aabb.0.x <= walk_aabb.1.x {
        walk_aabb.1.x as int
    } else {
        walk_aabb.0.x as int
    };
    let miny = if walk_aabb.0.y <= walk_aabb.1.y {
        walk_aabb.0.y as int
    } else {
        walk_aabb.1.y as int
    };
    let maxy = if walk_aabb.0.y <= walk_aabb.1.y {
        walk_aabb.1.y as int
    } else {
        walk_aabb.0.y as int
    };
    TilePosition {
        x: (minx + h % (maxx - minx + 1)) as i16,
        y: (miny + h % (maxy - miny + 1)) as i16,
    }
}

/// Picks the wander target for a relaxing agent. Identical inputs always
/// yield the identical target: the result is a function of the agent id,
/// position, tick, and box alone.
pub fn relax_target(
    brain_index: u8,
    position: TilePosition,
    tick: GameTicks,
    walk_aabb: (TilePosition, TilePosition),
) -> (r: TilePosition)
    ensures
        r == spec_relax_target(brain_index, position, tick, walk_aabb),
        walk_aabb.0.x <= r.x || walk_aabb.1.x <= r.x,
        r.x <= walk_aabb.0.x || r.x <= walk_aabb.1.x,
{
    let seed = relax_seed_bytes(brain_index, position, tick);
    let h: u64 = hash_bytes(&seed) >> 32;
    let (minx, maxx): (i16, i16) = if walk_aabb.0.x <= walk_aabb.1.x {
        (walk_aabb.0.x, walk_aabb.1.x)
    } else {
        (walk_aabb.1.x, walk_aabb.0.x)
    };
    let (miny, maxy): (i16, i16) = if walk_aabb.0.y <= walk_aabb.1.y {
        (walk_aabb.0.y, walk_aabb.1.y)
    } else {
        (walk_aabb.1.y, walk_aabb.0.y)
    };
    let spanx: u64 = (maxx as i64 - minx as i64 + 1) as u64;
    let spany: u64 = (maxy as i64 - miny as i64 + 1) as u64;
    let x: i16 = (minx as i64 + (h % spanx) as i64) as i16;
    let y: i16 = (miny as i64 + (h % spany) as i64) as i16;
    TilePosition { x, y }
}

/// The per-agent planner state: the bounded goal stack, the standing role,
/// and a few pacing counters.
#[derive(Debug)]
pub struct Brain {
    pub goal_stack: Vec<Goal>,
    pub job: Occupation,
    pub max_haul_amount: u8,
    pub wait_ticks: GameTicks,
    pub ticks_without_goal: GameTicks,
    pub has_relaxed: bool,
}

impl Brain {
    /// The stack never exceeds its depth bound and every stored path is
    /// well-formed.
    pub open spec fn wf(self) -> bool {
        &&& self.goal_stack@.len() <= MAX_GOALS
        &&& forall|i: int| 0 <= i < self.goal_stack@.len() ==> goal_wf(#[trigger] self.goal_stack@[i])
    }

    /// A fresh idle brain with default pacing.
    pub fn new() -> (r: Brain)
        ensures
            r.wf(),
            r.goal_stack@.len() == 0,
            r.job == Occupation::Idle,
            r.max_haul_amount == 2,
            r.wait_ticks == 30,
            r.ticks_without_goal == 0,
            !r.has_relaxed,
    {
        Brain {
            goal_stack: Vec::new(),
            job: Occupation::Idle,
            max_haul_amount: 2,
            wait_ticks: 30,
            ticks_without_goal: 0,
            has_relaxed: false,
        }
    }

    /// The step the agent should take next: the first step of the active
    /// path-following goal, if that is what tops the stack.
    pub fn next_move_direction(&self) -> (r: Option<Direction>)
        requires
            self.wf(),
        ensures
            ({
                let stack = self.goal_stack@;
                if stack.len() == 0 {
                    r is None
                } else {
                    match stack.last() {
                        Goal::FollowPath { from, path } => r == if path@.len() == 0 {
                            None::<Direction>
                        } else {
                            Some(path@[0])
                        },
                        _ => r is None,
                    }
                }
            }),
    {
        let n: usize = self.goal_stack.len();
        if n == 0 {
            return None;
        }
        match &self.goal_stack[n - 1] {
            Goal::FollowPath { path, .. } => {
                if path.is_empty() {
                    None
                } else {
                    Some(path.get_step(0))
                }
            },
            _ => None,
        }
    }

    /// The job the agent is actively working, if a work goal tops the
    /// stack.
    pub fn current_job(&self) -> (r: Option<JobStationVariant>)
        requires
            self.wf(),
        ensures
            ({
                let stack = self.goal_stack@;
                if stack.len() == 0 {
                    r is None
                } else {
                    match stack.last() {
                        Goal::Work { haul_wait_timeout, job } => r == Some(job),
                        _ => r is None,
                    }
                }
            }),
    {
        let n: usize = self.goal_stack.len();
        if n == 0 {
            return None;
        }
        match &self.goal_stack[n - 1] {
            Goal::Work { job, .. } => Some(*job),
            _ => None,
        }
    }
}

/// Whether an entity's stockpile offers at least one non-reserved unit of
/// `resource`.
pub open spec fn entity_offers(e: Entity, resource: ResourceVariant) -> bool {
    e.stockpile.non_reserved_slot_of(resource) >= 0 && e.stockpile.amounts[
        e.stockpile.non_reserved_slot_of(resource)] > 0
}

/// Whether any of the first `upto` entities standing on (x, y) offers a
/// non-reserved unit of `resource`.
pub open spec fn offers_at_upto(
    scene: Scene,
    resource: ResourceVariant,
    upto: int,
    x: int,
    y: int,
) -> bool {
    exists|i: int|
        0 <= i < upto && (#[trigger] scene.entities@[i]).position.x as int == x
            && scene.entities@[i].position.y as int == y && entity_offers(
            scene.entities@[i],
            resource,
        )
}

/// Marks every cell holding an unreserved unit of `resource`, as a
/// destination mask for the path finder.
pub fn find_non_reserved_resources(
    scene: &Scene,
    resource: ResourceVariant,
    walls: &BitGrid,
) -> (r: BitGrid)
    requires
        scene.wf(),
        walls.wf(),
    ensures
        r.wf(),
        r.spec_width() == walls.spec_width(),
        r.spec_height() == walls.spec_height(),
        forall|x: int, y: int|
            0 <= x < r.spec_width() && 0 <= y < r.spec_height() ==> #[trigger] r.spec_get(x, y)
                == offers_at_upto(*scene, resource, scene.entities@.len() as int, x, y),
{
    let (width, height) = walls.size();
    let mut destinations: BitGrid = match BitGrid::new(width, height) {
        Some(g) => g,
        None => {
            proof {
                walls.lemma_dims();
            }
            vstd::pervasive::unreached()
        },
    };
    let n: usize = scene.entities.len();
    let mut i: usize = 0;
    while i < n
        invariant
            destinations.wf(),
            destinations.spec_width() == walls.spec_width(),
            destinations.spec_height() == walls.spec_height(),
            scene.wf(),
            n == scene.entities@.len(),
            i <= n,
            forall|x: int, y: int|
                0 <= x < destinations.spec_width() && 0 <= y < destinations.spec_height()
                    ==> #[trigger] destinations.spec_get(x, y) == offers_at_upto(
                    *scene,
                    resource,
                    i as int,
                    x,
                    y,
                ),
        decreases n - i,
    {
        let e = &scene.entities[i];
        let offers: bool = e.stockpile.has_non_reserved_resources(resource);
        let in_grid: bool = destinations.in_bounds(e.position);
        if offers && in_grid {
            destinations.set(e.position, true);
        }
        proof {
            lemma_offers_extend(*scene, resource, i as int, destinations);
        }
        i = i + 1;
    }
    destinations
}

/// Extending the scanned prefix by one entity changes the offered-cell
/// predicate only at that entity's cell.
proof fn lemma_offers_extend(scene: Scene, resource: ResourceVariant, i: int, destinations: BitGrid)
    requires
        0 <= i < scene.entities@.len(),
        forall|x: int, y: int|
            0 <= x < destinations.spec_width() && 0 <= y < destinations.spec_height() ==> {
                let e = scene.entities@[i];
                #[trigger] destinations.spec_get(x, y) == (offers_at_upto(scene, resource, i, x, y)
                    || (e.position.x as int == x && e.position.y as int == y && entity_offers(
                    e,
                    resource,
                )))
            },
    ensures
        forall|x: int, y: int|
            0 <= x < destinations.spec_width() && 0 <= y < destinations.spec_height()
                ==> #[trigger] destinations.spec_get(x, y) == offers_at_upto(
                scene,
                resource,
                i + 1,
                x,
                y,
            ),
{
    assert forall|x: int, y: int|
        0 <= x < destinations.spec_width() && 0 <= y
            < destinations.spec_height() implies #[trigger] destinations.spec_get(x, y)
        == offers_at_upto(scene, resource, i + 1, x, y) by {
        let e = scene.entities@[i];
        if e.position.x as int == x && e.position.y as int == y && entity_offers(e, resource) {
            assert(offers_at_upto(scene, resource, i + 1, x, y));
        } else if offers_at_upto(scene, resource, i + 1, x, y) {
            let j = choose|j: int|
                0 <= j < i + 1 && (#[trigger] scene.entities@[j]).position.x as int == x
                    && scene.entities@[j].position.y as int == y && entity_offers(
                    scene.entities@[j],
                    resource,
                );
            assert(j < i);
            assert(offers_at_upto(scene, resource, i, x, y));
        } else {
            if offers_at_upto(scene, resource, i, x, y) {
                let j = choose|j: int|
                    0 <= j < i && (#[trigger] scene.entities@[j]).position.x as int == x
                        && scene.entities@[j].position.y as int == y && entity_offers(
                        scene.entities@[j],
                        resource,
                    );
                assert(offers_at_upto(scene, resource, i + 1, x, y));
            }
        }
    }
}

/// Whether an entity is a job station of the given kind.
pub open spec fn entity_is_station(e: Entity, job: JobStationVariant) -> bool {
    e.job_station matches Some(status) && status.variant == job
}

/// Whether any of the first `upto` entities standing on (x, y) is a job
/// station of the given kind.
pub open spec fn station_at_upto(
    scene: Scene,
    job: JobStationVariant,
    upto: int,
    x: int,
    y: int,
) -> bool {
    exists|i: int|
        0 <= i < upto && (#[trigger] scene.entities@[i]).position.x as int == x
            && scene.entities@[i].position.y as int == y && entity_is_station(
            scene.entities@[i],
            job,
        )
}

/// Marks every cell holding a job station of the given kind, as a
/// destination mask for the path finder.
pub fn find_job_stations(scene: &Scene, job: JobStationVariant, walls: &BitGrid) -> (r: BitGrid)
    requires
        scene.wf(),
        walls.wf(),
    ensures
        r.wf(),
        r.spec_width() == walls.spec_width(),
        r.spec_height() == walls.spec_height(),
        forall|x: int, y: int|
            0 <= x < r.spec_width() && 0 <= y < r.spec_height() ==> #[trigger] r.spec_get(x, y)
                == station_at_upto(*scene, job, scene.entities@.len() as int, x, y),
{
    let (width, height) = walls.size();
    let mut destinations: BitGrid = match BitGrid::new(width, height) {
        Some(g) => g,
        None => {
            proof {
                walls.lemma_dims();
            }
            vstd::pervasive::unreached()
        },
    };
    let n: usize = scene.entities.len();
    let mut i: usize = 0;
    while i < n
        invariant
            destinations.wf(),
            destinations.spec_width() == walls.spec_width(),
            destinations.spec_height() == walls.spec_height(),
            scene.wf(),
            n == scene.entities@.len(),
            i <= n,
            forall|x: int, y: int|
                0 <= x < destinations.spec_width() && 0 <= y < destinations.spec_height()
                    ==> #[trigger] destinations.spec_get(x, y) == station_at_upto(
                    *scene,
                    job,
                    i as int,
                    x,
                    y,
                ),
        decreases n - i,
    {
        let e = &scene.entities[i];
        let matches_job: bool = match &e.job_station {
            Some(status) => status.variant == job,
            None => false,
        };
        let in_grid: bool = destinations.in_bounds(e.position);
        if matches_job && in_grid {
            destinations.set(e.position, true);
        }
        proof {
            lemma_station_extend(*scene, job, i as int, destinations);
        }
        i = i + 1;
    }
    destinations
}

/// Extending the scanned prefix by one entity changes the station-cell
/// predicate only at that entity's cell.
proof fn lemma_station_extend(scene: Scene, job: JobStationVariant, i: int, destinations: BitGrid)
    requires
        0 <= i < scene.entities@.len(),
        forall|x: int, y: int|
            0 <= x < destinations.spec_width() && 0 <= y < destinations.spec_height() ==> {
                let e = scene.entities@[i];
                #[trigger] destinations.spec_get(x, y) == (station_at_upto(scene, job, i, x, y)
                    || (e.position.x as int == x && e.position.y as int == y && entity_is_station(
                    e,
                    job,
                )))
            },
    ensures
        forall|x: int, y: int|
            0 <= x < destinations.spec_width() && 0 <= y < destinations.spec_height()
                ==> #[trigger] destinations.spec_get(x, y) == station_at_upto(
                scene,
                job,
                i + 1,
                x,
                y,
            ),
{
    assert forall|x: int, y: int|
        0 <= x < destinations.spec_width() && 0 <= y
            < destinations.spec_height() implies #[trigger] destinations.spec_get(x, y)
        == station_at_upto(scene, job, i + 1, x, y) by {
        let e = scene.entities@[i];
        if e.position.x as int == x && e.position.y as int == y && entity_is_station(e, job) {
            assert(station_at_upto(scene, job, i + 1, x, y));
        } else if station_at_upto(scene, job, i + 1, x, y) {
            let j = choose|j: int|
                0 <= j < i + 1 && (#[trigger] scene.entities@[j]).position.x as int == x
                    && scene.entities@[j].position.y as int == y && entity_is_station(
                    scene.entities@[j],
                    job,
                );
            assert(j < i);
            assert(station_at_upto(scene, job, i, x, y));
        } else {
            if station_at_upto(scene, job, i, x, y) {
                let j = choose|j: int|
                    0 <= j < i && (#[trigger] scene.entities@[j]).position.x as int == x
                        && scene.entities@[j].position.y as int == y && entity_is_station(
                        scene.entities@[j],
                        job,
                    );
                assert(station_at_upto(scene, job, i + 1, x, y));
            }
        }
    }
}

/// How the tick's one goal execution resolved: keep the goal, pop it
/// (finished or unachievable), or keep it and stack an instrumental subgoal
/// on top.
pub enum GoalResolution {
    InProgress,
    Finished,
    NotAchievable,
    Subgoal(Goal),
}

/// Haul goals only name destinations on the grid.
pub open spec fn goal_ok(g: Goal, walls: BitGrid) -> bool {
    match g {
        Goal::Haul { description } => walls.spec_in_bounds(description.destination.1),
        _ => true,
    }
}

pub open spec fn stack_ok(stack: Seq<Goal>, walls: BitGrid) -> bool {
    forall|i: int| 0 <= i < stack.len() ==> goal_ok(#[trigger] stack[i], walls)
}

/// Every advertised haul names a destination on the grid.
pub open spec fn haul_dests_in_bounds(
    entries: Seq<(u32, HaulDescription)>,
    walls: BitGrid,
) -> bool {
    forall|i: int|
        0 <= i < entries.len() ==> walls.spec_in_bounds((#[trigger] entries[i]).1.destination.1)
}

/// The planner never moves or retypes existing entities; it may append
/// newly dropped resource piles.
pub open spec fn scene_positions_preserved(s0: Scene, s1: Scene) -> bool {
    &&& s1.entities@.len() >= s0.entities@.len()
    &&& s1.entity_capacity == s0.entity_capacity
    &&& forall|i: int|
        0 <= i < s0.entities@.len() ==> (#[trigger] s1.entities@[i]).position
            == s0.entities@[i].position
}

/// Like `hits_destination`, over the cells offering an unreserved unit of
/// `resource` instead of a bit mask: the walk ends on such a cell, or
/// beside a blocked one, or starts on one.
pub open spec fn hits_offering_cell(
    current: TilePosition,
    s: Seq<Direction>,
    walls: BitGrid,
    scene: Scene,
    resource: ResourceVariant,
) -> bool {
    let n = scene.entities@.len() as int;
    let end = crate::pathfinding::walk(current.x as int, current.y as int, s);
    ||| {
        &&& 0 <= end.0 && end.0 < walls.spec_width()
        &&& 0 <= end.1 && end.1 < walls.spec_height()
        &&& offers_at_upto(scene, resource, n, end.0, end.1)
    }
    ||| exists|d: Direction|
        #![trigger crate::pathfinding::dir_dx(d), crate::pathfinding::dir_dy(d)]
        {
            let wx = end.0 + crate::pathfinding::dir_dx(d);
            let wy = end.1 + crate::pathfinding::dir_dy(d);
            &&& 0 <= wx && wx < walls.spec_width()
            &&& 0 <= wy && wy < walls.spec_height()
            &&& walls.spec_get(wx, wy)
            &&& offers_at_upto(scene, resource, n, wx, wy)
        }
    ||| (s.len() == 0 && offers_at_upto(
        scene,
        resource,
        n,
        current.x as int,
        current.y as int,
    ))
}

/// On a mask that marks exactly the offering cells, a mask hit is an
/// offering-cell hit.
proof fn lemma_offering_mask_hits(
    current: TilePosition,
    s: Seq<Direction>,
    walls: BitGrid,
    scene: Scene,
    resource: ResourceVariant,
    mask: BitGrid,
)
    requires
        mask.spec_width() == walls.spec_width(),
        mask.spec_height() == walls.spec_height(),
        walls.spec_in_bounds(current),
        forall|x: int, y: int|
            0 <= x < mask.spec_width() && 0 <= y < mask.spec_height() ==> #[trigger] mask.spec_get(
                x,
                y,
            ) == offers_at_upto(scene, resource, scene.entities@.len() as int, x, y),
    ensures
        crate::pathfinding::hits_destination(current, s, walls, mask, true)
            == hits_offering_cell(current, s, walls, scene, resource),
{
    let n = scene.entities@.len() as int;
    let end = crate::pathfinding::walk(current.x as int, current.y as int, s);
    if crate::pathfinding::hits_destination(current, s, walls, mask, true)
        && !hits_offering_cell(current, s, walls, scene, resource) {
        if exists|d: Direction|
            #![trigger crate::pathfinding::dir_dx(d), crate::pathfinding::dir_dy(d)]
            {
                let wx = end.0 + crate::pathfinding::dir_dx(d);
                let wy = end.1 + crate::pathfinding::dir_dy(d);
                &&& 0 <= wx && wx < walls.spec_width()
                &&& 0 <= wy && wy < walls.spec_height()
                &&& walls.spec_get(wx, wy)
                &&& mask.spec_get(wx, wy)
            } {
            let d = choose|d: Direction|
                #![trigger crate::pathfinding::dir_dx(d), crate::pathfinding::dir_dy(d)]
                {
                    let wx = end.0 + crate::pathfinding::dir_dx(d);
                    let wy = end.1 + crate::pathfinding::dir_dy(d);
                    &&& 0 <= wx && wx < walls.spec_width()
                    &&& 0 <= wy && wy < walls.spec_height()
                    &&& walls.spec_get(wx, wy)
                    &&& mask.spec_get(wx, wy)
                };
            assert(offers_at_upto(
                scene,
                resource,
                n,
                end.0 + crate::pathfinding::dir_dx(d),
                end.1 + crate::pathfinding::dir_dy(d),
            ));
        }
        assert(false);
    }
    if hits_offering_cell(current, s, walls, scene, resource)
        && !crate::pathfinding::hits_destination(current, s, walls, mask, true) {
        if exists|d: Direction|
            #![trigger crate::pathfinding::dir_dx(d), crate::pathfinding::dir_dy(d)]
            {
                let wx = end.0 + crate::pathfinding::dir_dx(d);
                let wy = end.1 + crate::pathfinding::dir_dy(d);
                &&& 0 <= wx && wx < walls.spec_width()
                &&& 0 <= wy && wy < walls.spec_height()
                &&& walls.spec_get(wx, wy)
                &&& offers_at_upto(scene, resource, n, wx, wy)
            } {
            let d = choose|d: Direction|
                #![trigger crate::pathfinding::dir_dx(d), crate::pathfinding::dir_dy(d)]
                {
                    let wx = end.0 + crate::pathfinding::dir_dx(d);
                    let wy = end.1 + crate::pathfinding::dir_dy(d);
                    &&& 0 <= wx && wx < walls.spec_width()
                    &&& 0 <= wy && wy < walls.spec_height()
                    &&& walls.spec_get(wx, wy)
                    &&& offers_at_upto(scene, resource, n, wx, wy)
                };
            assert(mask.spec_get(
                end.0 + crate::pathfinding::dir_dx(d),
                end.1 + crate::pathfinding::dir_dy(d),
            ));
        }
        assert(false);
    }
}

/// Like `hits_destination`, over the cells holding a job station of the
/// given kind.
pub open spec fn hits_station_cell(
    current: TilePosition,
    s: Seq<Direction>,
    walls: BitGrid,
    scene: Scene,
    job: JobStationVariant,
) -> bool {
    let n = scene.entities@.len() as int;
    let end = crate::pathfinding::walk(current.x as int, current.y as int, s);
    ||| {
        &&& 0 <= end.0 && end.0 < walls.spec_width()
        &&& 0 <= end.1 && end.1 < walls.spec_height()
        &&& station_at_upto(scene, job, n, end.0, end.1)
    }
    ||| exists|d: Direction|
        #![trigger crate::pathfinding::dir_dx(d), crate::pathfinding::dir_dy(d)]
        {
            let wx = end.0 + crate::pathfinding::dir_dx(d);
            let wy = end.1 + crate::pathfinding::dir_dy(d);
            &&& 0 <= wx && wx < walls.spec_width()
            &&& 0 <= wy && wy < walls.spec_height()
            &&& walls.spec_get(wx, wy)
            &&& station_at_upto(scene, job, n, wx, wy)
        }
    ||| (s.len() == 0 && station_at_upto(scene, job, n, current.x as int, current.y as int))
}

/// On a mask that marks exactly the station cells, a mask hit is a station
/// hit.
proof fn lemma_station_mask_hits(
    current: TilePosition,
    s: Seq<Direction>,
    walls: BitGrid,
    scene: Scene,
    job: JobStationVariant,
    mask: BitGrid,
)
    requires
        mask.spec_width() == walls.spec_width(),
        mask.spec_height() == walls.spec_height(),
        walls.spec_in_bounds(current),
        forall|x: int, y: int|
            0 <= x < mask.spec_width() && 0 <= y < mask.spec_height() ==> #[trigger] mask.spec_get(
                x,
                y,
            ) == station_at_upto(scene, job, scene.entities@.len() as int, x, y),
    ensures
        crate::pathfinding::hits_destination(current, s, walls, mask, true)
            == hits_station_cell(current, s, walls, scene, job),
{
    let n = scene.entities@.len() as int;
    let end = crate::pathfinding::walk(current.x as int, current.y as int, s);
    if crate::pathfinding::hits_destination(current, s, walls, mask, true)
        && !hits_station_cell(current, s, walls, scene, job) {
        if exists|d: Direction|
            #![trigger crate::pathfinding::dir_dx(d), crate::pathfinding::dir_dy(d)]
            {
                let wx = end.0 + crate::pathfinding::dir_dx(d);
                let wy = end.1 + crate::pathfinding::dir_dy(d);
                &&& 0 <= wx && wx < walls.spec_width()
                &&& 0 <= wy && wy < walls.spec_height()
                &&& walls.spec_get(wx, wy)
                &&& mask.spec_get(wx, wy)
            } {
            let d = choose|d: Direction|
                #![trigger crate::pathfinding::dir_dx(d), crate::pathfinding::dir_dy(d)]
                {
                    let wx = end.0 + crate::pathfinding::dir_dx(d);
                    let wy = end.1 + crate::pathfinding::dir_dy(d);
                    &&& 0 <= wx && wx < walls.spec_width()
                    &&& 0 <= wy && wy < walls.spec_height()
                    &&& walls.spec_get(wx, wy)
                    &&& mask.spec_get(wx, wy)
                };
            assert(station_at_upto(
                scene,
                job,
                n,
                end.0 + crate::pathfinding::dir_dx(d),
                end.1 + crate::pathfinding::dir_dy(d),
            ));
        }
        assert(false);
    }
    if hits_station_cell(current, s, walls, scene, job)
        && !crate::pathfinding::hits_destination(current, s, walls, mask, true) {
        if exists|d: Direction|
            #![trigger crate::pathfinding::dir_dx(d), crate::pathfinding::dir_dy(d)]
            {
                let wx = end.0 + crate::pathfinding::dir_dx(d);
                let wy = end.1 + crate::pathfinding::dir_dy(d);
                &&& 0 <= wx && wx < walls.spec_width()
                &&& 0 <= wy && wy < walls.spec_height()
                &&& walls.spec_get(wx, wy)
                &&& station_at_upto(scene, job, n, wx, wy)
            } {
            let d = choose|d: Direction|
                #![trigger crate::pathfinding::dir_dx(d), crate::pathfinding::dir_dy(d)]
                {
                    let wx = end.0 + crate::pathfinding::dir_dx(d);
                    let wy = end.1 + crate::pathfinding::dir_dy(d);
                    &&& 0 <= wx && wx < walls.spec_width()
                    &&& 0 <= wy && wy < walls.spec_height()
                    &&& walls.spec_get(wx, wy)
                    &&& station_at_upto(scene, job, n, wx, wy)
                };
            assert(mask.spec_get(
                end.0 + crate::pathfinding::dir_dx(d),
                end.1 + crate::pathfinding::dir_dy(d),
            ));
        }
        assert(false);
    }
}

/// A haul request the agent at `current` can actually serve: both its
/// destination and at least one unreserved unit of its resource are
/// reachable within a path's capacity.
pub open spec fn haul_viable(
    current: TilePosition,
    description: HaulDescription,
    scene: Scene,
    walls: BitGrid,
) -> bool {
    &&& exists|s: Seq<Direction>|
        #[trigger] crate::pathfinding::walk_open(current.x as int, current.y as int, s, walls)
            && crate::pathfinding::path_reaches_tile(
            current,
            s,
            walls,
            description.destination.1,
            true,
        ) && s.len() + 1 <= crate::pathfinding::MAX_PATH_STEPS
    &&& exists|s: Seq<Direction>|
        #[trigger] crate::pathfinding::walk_open(current.x as int, current.y as int, s, walls)
            && hits_offering_cell(current, s, walls, scene, description.resource) && s.len() + 1
            <= crate::pathfinding::MAX_PATH_STEPS
}

/// Removing one candidate whose request is not worth serving keeps a
/// candidate for every request that is.
proof fn lemma_candidates_still_cover(
    entries: Seq<(u32, HaulDescription)>,
    cands_old: Seq<(NotificationId, u32)>,
    cands_new: Seq<(NotificationId, u32)>,
    best: int,
    removed_id: u32,
    current: TilePosition,
    scene: Scene,
    walls: BitGrid,
)
    requires
        0 <= best < cands_old.len(),
        cands_new == cands_old.update(best, cands_old.last()).drop_last(),
        cands_old[best].0.0 == removed_id,
        forall|e: int|
            0 <= e < entries.len() && haul_viable(
                current,
                (#[trigger] entries[e]).1,
                scene,
                walls,
            ) ==> exists|c: int|
                0 <= c < cands_old.len() && (#[trigger] cands_old[c]).0.0 == entries[e].0,
        forall|a: int, b: int|
            0 <= a < b < entries.len() ==> (#[trigger] entries[a]).0 != (
            #[trigger] entries[b]).0,
        forall|e: int|
            0 <= e < entries.len() && (#[trigger] entries[e]).0 == removed_id ==> !haul_viable(
                current,
                entries[e].1,
                scene,
                walls,
            ),
    ensures
        forall|e: int|
            0 <= e < entries.len() && haul_viable(
                current,
                (#[trigger] entries[e]).1,
                scene,
                walls,
            ) ==> exists|c: int|
                0 <= c < cands_new.len() && (#[trigger] cands_new[c]).0.0 == entries[e].0,
{
    assert forall|e: int|
        0 <= e < entries.len() && haul_viable(
            current,
            (#[trigger] entries[e]).1,
            scene,
            walls,
        ) implies exists|c: int|
            0 <= c < cands_new.len() && (#[trigger] cands_new[c]).0.0 == entries[e].0 by {
        let c0 = choose|c: int|
            0 <= c < cands_old.len() && (#[trigger] cands_old[c]).0.0 == entries[e].0;
        assert(entries[e].0 != removed_id);
        assert(c0 != best);
        if c0 < cands_old.len() - 1 {
            assert(cands_new[c0] == cands_old[c0]);
        } else {
            assert(cands_new[best] == cands_old[c0]);
        }
    }
}

/// Scans the advertised hauls nearest-destination-first and claims the
/// first one whose destination and resource are both reachable. A claim
/// larger than `max_haul_amount` is split: the broker keeps the remainder
/// and only the capped amount is claimed.
pub fn find_haul_work(
    max_haul_amount: u8,
    current_position: TilePosition,
    scene: &Scene,
    haul_notifications: &mut NotificationSet<HaulDescription>,
    walls: &BitGrid,
) -> (r: Option<HaulDescription>)
    requires
        scene.wf(),
        old(haul_notifications).wf(),
        haul_dests_in_bounds(old(haul_notifications).spec_entries(), *walls),
        walls.wf(),
    ensures
        final(haul_notifications).wf(),
        final(haul_notifications).spec_capacity() == old(haul_notifications).spec_capacity(),
        final(haul_notifications).spec_next_id() == old(haul_notifications).spec_next_id(),
        haul_dests_in_bounds(final(haul_notifications).spec_entries(), *walls),
        r is None ==> *final(haul_notifications) == *old(haul_notifications),
        (walls.spec_in_bounds(current_position) && exists|i: int|
            0 <= i < old(haul_notifications).spec_entries().len() && haul_viable(
                current_position,
                (#[trigger] old(haul_notifications).spec_entries()[i]).1,
                *scene,
                *walls,
            )) ==> r is Some,
        walls.spec_in_bounds(current_position) ==> (r matches Some(desc) ==> forall|e: int|
            0 <= e < old(haul_notifications).spec_entries().len() && haul_viable(
                current_position,
                (#[trigger] old(haul_notifications).spec_entries()[e]).1,
                *scene,
                *walls,
            ) ==> desc.destination.1.spec_manhattan_distance(current_position) <= old(haul_notifications).spec_entries()[e].1.destination.1.spec_manhattan_distance(current_position)),
        r matches Some(desc) ==> {
            &&& desc.amount <= max_haul_amount
            &&& walls.spec_in_bounds(desc.destination.1)
            &&& claimed_or_split(
                old(haul_notifications).spec_entries(),
                final(haul_notifications).spec_entries(),
                desc,
                max_haul_amount,
            )
        },
{
    let n: usize = haul_notifications.len();
    let mut candidates: Vec<(NotificationId, u32)> = Vec::new();
    let mut i: usize = 0;
    while i < n
        invariant
            n == haul_notifications.spec_entries().len(),
            i <= n,
            haul_notifications.wf(),
            candidates@.len() == i,
            forall|j: int|
                0 <= j < i ==> (#[trigger] candidates@[j]).0.0
                    == haul_notifications.spec_entries()[j].0,
            forall|j: int|
                0 <= j < i ==> (#[trigger] candidates@[j]).1
                    == haul_notifications.spec_entries()[j].1.destination.1.spec_manhattan_distance(
                    current_position,
                ),
            forall|j: int|
                0 <= j < candidates@.len() ==> haul_notifications.spec_contains_id(
                    (#[trigger] candidates@[j]).0.0,
                ),
        decreases n - i,
    {
        let (id, desc) = haul_notifications.entry_at(i);
        let dist: u32 = desc.destination.1.manhattan_distance(current_position);
        proof {
            assert(haul_notifications.spec_contains_id(
                haul_notifications.spec_entries()[i as int].0,
            ));
        }
        candidates.push((id, dist));
        i = i + 1;
    }
    proof {
        assert forall|e: int|
            0 <= e < haul_notifications.spec_entries().len() && haul_viable(
                current_position,
                (#[trigger] haul_notifications.spec_entries()[e]).1,
                *scene,
                *walls,
            ) implies exists|c: int|
                0 <= c < candidates@.len() && (#[trigger] candidates@[c]).0.0
                    == haul_notifications.spec_entries()[e].0 by {
            assert(candidates@[e].0.0 == haul_notifications.spec_entries()[e].0);
        }
        haul_notifications.lemma_wf_ids_unique();
        assert forall|c: int| 0 <= c < candidates@.len() implies (
        #[trigger] candidates@[c]).1 == haul_notifications.spec_entries()[
        crate::notifications::seq_index_of_id(
            haul_notifications.spec_entries(),
            candidates@[c].0.0,
        )].1.destination.1.spec_manhattan_distance(current_position) by {
            let entries = haul_notifications.spec_entries();
            assert((entries[c]).0 == candidates@[c].0.0);
            let ix = crate::notifications::seq_index_of_id(entries, candidates@[c].0.0);
            assert(0 <= ix < entries.len());
            assert(ix == c);
        }
    }
    while candidates.len() > 0
        invariant
            scene.wf(),
            walls.wf(),
            haul_notifications.wf(),
            *haul_notifications == *old(haul_notifications),
            haul_dests_in_bounds(haul_notifications.spec_entries(), *walls),
            forall|j: int|
                0 <= j < candidates@.len() ==> haul_notifications.spec_contains_id(
                    (#[trigger] candidates@[j]).0.0,
                ),
            walls.spec_in_bounds(current_position) ==> forall|e: int|
                0 <= e < haul_notifications.spec_entries().len() && haul_viable(
                    current_position,
                    (#[trigger] haul_notifications.spec_entries()[e]).1,
                    *scene,
                    *walls,
                ) ==> exists|c: int|
                    0 <= c < candidates@.len() && (#[trigger] candidates@[c]).0.0
                        == haul_notifications.spec_entries()[e].0,
            forall|c: int|
                0 <= c < candidates@.len() ==> (#[trigger] candidates@[c]).1
                    == haul_notifications.spec_entries()[crate::notifications::seq_index_of_id(
                    haul_notifications.spec_entries(),
                    candidates@[c].0.0,
                )].1.destination.1.spec_manhattan_distance(current_position),
        decreases candidates@.len(),
    {
        let ghost cands_before: Seq<(NotificationId, u32)> = candidates@;
        let mut best: usize = 0;
        let mut j: usize = 1;
        while j < candidates.len()
            invariant
                candidates@.len() > 0,
                best < candidates@.len(),
                j <= candidates@.len(),
                forall|c: int| 0 <= c < j ==> candidates@[best as int].1 <= (
                #[trigger] candidates@[c]).1,
            decreases candidates@.len() - j,
        {
            if candidates[j].1 < candidates[best].1 {
                best = j;
            }
            j = j + 1;
        }
        let (notif_id, _dist) = candidates.swap_remove(best);
        let found: Option<&HaulDescription> = haul_notifications.get(notif_id);
        match found {
            None => {
                proof {
                    if walls.spec_in_bounds(current_position) {
                        haul_notifications.lemma_wf_ids_unique();
                        assert forall|e: int|
                            0 <= e < haul_notifications.spec_entries().len() && (
                            #[trigger] haul_notifications.spec_entries()[e]).0
                                == notif_id.0 implies !haul_viable(
                            current_position,
                            haul_notifications.spec_entries()[e].1,
                            *scene,
                            *walls,
                        ) by {
                            assert(haul_notifications.spec_contains_id(notif_id.0));
                            assert(false);
                        }
                        lemma_candidates_still_cover(
                            haul_notifications.spec_entries(),
                            cands_before,
                            candidates@,
                            best as int,
                            notif_id.0,
                            current_position,
                            *scene,
                            *walls,
                        );
                    }
                }
            },
            Some(description_ref) => {
                let description: HaulDescription = *description_ref;
                proof {
                    let entries = haul_notifications.spec_entries();
                    assert(haul_notifications.spec_contains_id(notif_id.0));
                    let idx = crate::notifications::seq_index_of_id(entries, notif_id.0);
                    assert(0 <= idx < entries.len());
                    assert(walls.spec_in_bounds(entries[idx].1.destination.1));
                    assert(description == entries[idx].1);
                    if walls.spec_in_bounds(current_position) {
                        // The candidate picked carries the smallest recorded
                        // distance, so no still-serviceable request sits
                        // nearer.
                        haul_notifications.lemma_wf_ids_unique();
                        assert(cands_before[best as int].1
                            == description.destination.1.spec_manhattan_distance(
                            current_position,
                        ));
                        assert forall|e: int|
                            0 <= e < entries.len() && haul_viable(
                                current_position,
                                (#[trigger] entries[e]).1,
                                *scene,
                                *walls,
                            ) implies description.destination.1.spec_manhattan_distance(
                            current_position,
                        ) <= entries[e].1.destination.1.spec_manhattan_distance(
                            current_position,
                        ) by {
                            let c = choose|c: int|
                                0 <= c < cands_before.len() && (#[trigger] cands_before[c]).0.0
                                    == entries[e].0;
                            let ixc = crate::notifications::seq_index_of_id(
                                entries,
                                cands_before[c].0.0,
                            );
                            assert(ixc == e);
                            assert(cands_before[c].1
                                == entries[e].1.destination.1.spec_manhattan_distance(
                                current_position,
                            ));
                            assert(cands_before[best as int].1 <= cands_before[c].1);
                        }
                    }
                }
                let path_to_dest = find_path_to(
                    current_position,
                    description.destination.1,
                    true,
                    walls,
                );
                if path_to_dest.is_some() {
                    let resource_mask = find_non_reserved_resources(
                        scene,
                        description.resource,
                        walls,
                    );
                    let path_to_resource = find_path_to_any(
                        current_position,
                        &resource_mask,
                        true,
                        walls,
                    );
                    if !path_to_resource.is_some() {
                        proof {
                            if walls.spec_in_bounds(current_position) {
                                haul_notifications.lemma_wf_ids_unique();
                                let entries = haul_notifications.spec_entries();
                                let idx = crate::notifications::seq_index_of_id(entries, notif_id.0);
                                assert forall|e: int|
                                    0 <= e < entries.len() && (#[trigger] entries[e]).0
                                        == notif_id.0 implies !haul_viable(
                                    current_position,
                                    entries[e].1,
                                    *scene,
                                    *walls,
                                ) by {
                                    assert(e == idx);
                                    assert(entries[e].1 == description);
                                    if haul_viable(current_position, description, *scene, *walls) {
                            // A reachable unreserved source would have forced the
                            // probe to succeed.
                            let s = choose|s: Seq<Direction>|
                                #[trigger] crate::pathfinding::walk_open(
                                    current_position.x as int,
                                    current_position.y as int,
                                    s,
                                    *walls,
                                ) && hits_offering_cell(
                                    current_position,
                                    s,
                                    *walls,
                                    *scene,
                                    description.resource,
                                ) && s.len() + 1 <= crate::pathfinding::MAX_PATH_STEPS;
                            lemma_offering_mask_hits(
                                current_position,
                                s,
                                *walls,
                                *scene,
                                description.resource,
                                resource_mask,
                            );
                                        assert(false);
                                    }
                                }
                                lemma_candidates_still_cover(
                                    entries,
                                    cands_before,
                                    candidates@,
                                    best as int,
                                    notif_id.0,
                                    current_position,
                                    *scene,
                                    *walls,
                                );
                            }
                        }
                    } else {
                        if description.amount > max_haul_amount {
                            let remainder = HaulDescription {
                                resource: description.resource,
                                amount: description.amount - max_haul_amount,
                                destination: description.destination,
                            };
                            let updated = haul_notifications.replace(notif_id, remainder);
                            proof {
                                lemma_dests_in_bounds_update(
                                    old(haul_notifications).spec_entries(),
                                    haul_notifications.spec_entries(),
                                    *walls,
                                );
                            }
                            return Some(
                                HaulDescription {
                                    resource: description.resource,
                                    amount: max_haul_amount,
                                    destination: description.destination,
                                },
                            );
                        } else {
                            let removed = haul_notifications.remove(notif_id);
                            proof {
                                lemma_dests_in_bounds_update(
                                    old(haul_notifications).spec_entries(),
                                    haul_notifications.spec_entries(),
                                    *walls,
                                );
                            }
                            match removed {
                                Some(d) => {
                                    return Some(d);
                                },
                                None => vstd::pervasive::unreached(),
                            }
                        }
                    }
                } else {
                    proof {
                        if walls.spec_in_bounds(current_position) {
                            haul_notifications.lemma_wf_ids_unique();
                            let entries = haul_notifications.spec_entries();
                            let idx = crate::notifications::seq_index_of_id(entries, notif_id.0);
                            assert forall|e: int|
                                0 <= e < entries.len() && (#[trigger] entries[e]).0
                                    == notif_id.0 implies !haul_viable(
                                current_position,
                                entries[e].1,
                                *scene,
                                *walls,
                            ) by {
                                assert(e == idx);
                                assert(entries[e].1 == description);
                                if haul_viable(current_position, description, *scene, *walls) {
                            // A reachable destination would have forced the probe
                            // to succeed.
                                    assert(false);
                                }
                            }
                            lemma_candidates_still_cover(
                                entries,
                                cands_before,
                                candidates@,
                                best as int,
                                notif_id.0,
                                current_position,
                                *scene,
                                *walls,
                            );
                        }
                    }
                }
            },
        }
    }
    proof {
        if walls.spec_in_bounds(current_position) {
            assert forall|i2: int|
                0 <= i2 < haul_notifications.spec_entries().len() implies !haul_viable(
                current_position,
                (#[trigger] haul_notifications.spec_entries()[i2]).1,
                *scene,
                *walls,
            ) by {
                if haul_viable(
                    current_position,
                    haul_notifications.spec_entries()[i2].1,
                    *scene,
                    *walls,
                ) {
                    assert(false);
                }
            }
        }
    }
    None
}

/// Removes up to `want` units of `resource` from the stockpiles within one
/// step of `current_position`, nearest entity in table order first, and
/// returns how much was removed.
fn pick_up_near(
    scene: &mut Scene,
    current_position: TilePosition,
    resource: ResourceVariant,
    want: u8,
) -> (taken: u8)
    requires
        old(scene).wf(),
    ensures
        final(scene).wf(),
        scene_positions_preserved(*old(scene), *final(scene)),
        final(scene).entities@.len() == old(scene).entities@.len(),
        taken <= want,
        forall|i: int|
            0 <= i < old(scene).entities@.len() ==> {
                let e0 = old(scene).entities@[i];
                let e1 = #[trigger] final(scene).entities@[i];
                &&& e1.character == e0.character
                &&& e1.job_station == e0.job_station
                &&& e1.collider == e0.collider
                &&& e1.stockpile_reliant == e0.stockpile_reliant
                &&& e1.stockpile.variants == e0.stockpile.variants
                &&& e1.stockpile.variant_count == e0.stockpile.variant_count
                &&& e1.stockpile.reserved == e0.stockpile.reserved
            },
        taken < want ==> forall|i: int|
            0 <= i < old(scene).entities@.len() && (#[trigger] old(scene).entities@[i]).position.spec_manhattan_distance(current_position) < 2
                && entity_offers(old(scene).entities@[i], resource) ==> final(scene).entities@[i].stockpile.amounts[old(scene).entities@[i].stockpile.slot_of(resource)]
                == 0,
{
    let n: usize = scene.entities.len();
    let mut taken: u8 = 0;
    let mut i: usize = 0;
    while i < n
        invariant
            scene.wf(),
            n == scene.entities@.len(),
            n == old(scene).entities@.len(),
            scene.entity_capacity == old(scene).entity_capacity,
            i <= n,
            taken <= want,
            forall|k: int|
                0 <= k < n ==> (#[trigger] scene.entities@[k]).position == old(scene).entities@[k].position,
            forall|k: int|
                0 <= k < n ==> {
                    let e0 = old(scene).entities@[k];
                    let e1 = #[trigger] scene.entities@[k];
                    &&& e1.character == e0.character
                    &&& e1.job_station == e0.job_station
                    &&& e1.collider == e0.collider
                    &&& e1.stockpile_reliant == e0.stockpile_reliant
                    &&& e1.stockpile.variants == e0.stockpile.variants
                    &&& e1.stockpile.variant_count == e0.stockpile.variant_count
                    &&& e1.stockpile.reserved == e0.stockpile.reserved
                },
            forall|k: int| i <= k < n ==> #[trigger] scene.entities@[k] == old(scene).entities@[k],
            taken < want ==> forall|k: int|
                0 <= k < i && (#[trigger] old(scene).entities@[k]).position.spec_manhattan_distance(
                    current_position,
                ) < 2 && entity_offers(old(scene).entities@[k], resource)
                    ==> scene.entities@[k].stockpile.amounts[old(scene).entities@[k].stockpile.slot_of(resource)] == 0,
        decreases n - i,
    {
        let e = scene.entities[i];
        let near: bool = e.position.manhattan_distance(current_position) < 2;
        if near && e.stockpile.has_non_reserved_resources(resource) && taken < want {
            let mut updated = e;
            let got: u8 = updated.stockpile.take_resource(resource, want - taken);
            scene.entities[i] = updated;
            taken = taken + got;
        }
        i = i + 1;
    }
    taken
}


/// Whether every character entity of this brain is awake enough to plan:
/// there is one, and none is out of oxygen or demoralized.
pub open spec fn brain_is_active(scene: Scene, brain_index: u8) -> bool {
    &&& exists|i: int|
        0 <= i < scene.entities@.len() && entity_is_brain(
            #[trigger] scene.entities@[i],
            brain_index,
        )
    &&& forall|i: int|
        0 <= i < scene.entities@.len() && entity_is_brain(
            #[trigger] scene.entities@[i],
            brain_index,
        ) ==> (scene.entities@[i].character matches Some(st) && st.oxygen
            > CharacterStatus::LOW_OXYGEN_THRESHOLD && st.morale
            > CharacterStatus::LOW_MORALE_THRESHOLD)
}


/// Pushing a goal adds a refill goal to the stack exactly when the pushed
/// goal is one.
proof fn lemma_refill_push(s: Seq<Goal>, g: Goal)
    ensures
        stack_has_refill(s.push(g)) == (stack_has_refill(s) || g matches Goal::RefillOxygen),
{
    let sp = s.push(g);
    if stack_has_refill(s) {
        let i = choose|i: int| 0 <= i < s.len() && (#[trigger] s[i]) matches Goal::RefillOxygen;
        assert(sp[i] matches Goal::RefillOxygen);
    }
    if (g matches Goal::RefillOxygen) {
        let n = s.len() as int;
        assert(sp[n] matches Goal::RefillOxygen);
    }
    if stack_has_refill(sp) && !(g matches Goal::RefillOxygen) {
        let i = choose|i: int|
            0 <= i < sp.len() && (#[trigger] sp[i]) matches Goal::RefillOxygen;
        if i < s.len() {
            assert(s[i] matches Goal::RefillOxygen);
        }
    }
}

/// The entity the planner reads as "this agent": the first character
/// carrying the brain index.
pub open spec fn is_first_brain(scene: Scene, brain_index: u8, i: int) -> bool {
    &&& 0 <= i < scene.entities@.len()
    &&& entity_is_brain(scene.entities@[i], brain_index)
    &&& forall|j: int|
        0 <= j < i ==> !entity_is_brain(#[trigger] scene.entities@[j], brain_index)
}

/// Whether a station of the given kind stands within one step of `pos`.
pub open spec fn station_adjacent(scene: Scene, job: JobStationVariant, pos: TilePosition) -> bool {
    exists|i: int|
        0 <= i < scene.entities@.len() && entity_is_station(
            #[trigger] scene.entities@[i],
            job,
        ) && scene.entities@[i].position.spec_manhattan_distance(pos) < 2
}

/// Whether every matching station within one step of `pos` still lacks its
/// input resource, so a pending haul request stays pending.
pub open spec fn adjacent_stations_under_resourced(
    scene: Scene,
    job: JobStationVariant,
    pos: TilePosition,
) -> bool {
    forall|i: int|
        0 <= i < scene.entities@.len() && entity_is_station(#[trigger] scene.entities@[i], job)
            && scene.entities@[i].position.spec_manhattan_distance(pos) < 2 ==> (
        match job.spec_details() {
            Some(d) => {
                let s = scene.entities@[i].stockpile;
                !(s.slot_of(d.resource_variant) >= 0 && s.amounts[s.slot_of(d.resource_variant)]
                    >= d.resource_amount)
            },
            None => true,
        })
}

/// The broker's transition when a request is claimed: either the whole
/// entry was swap-removed, or, for a request above the carry cap, the entry
/// stayed with its amount reduced by exactly the claimed cap.
pub open spec fn claimed_or_split(
    entries0: Seq<(u32, HaulDescription)>,
    entries1: Seq<(u32, HaulDescription)>,
    desc: HaulDescription,
    max_haul_amount: u8,
) -> bool {
    exists|id: u32|
        #![trigger crate::notifications::seq_index_of_id(entries0, id)]
        {
            &&& crate::notifications::seq_contains_id(entries0, id)
            &&& {
                let i = crate::notifications::seq_index_of_id(entries0, id);
                let d0 = entries0[i].1;
                &&& desc.resource == d0.resource
                &&& desc.destination == d0.destination
                &&& if d0.amount > max_haul_amount {
                    &&& desc.amount == max_haul_amount
                    &&& entries1 == entries0.update(
                        i,
                        (
                            id,
                            HaulDescription {
                                resource: d0.resource,
                                amount: (d0.amount - max_haul_amount) as u8,
                                destination: d0.destination,
                            },
                        ),
                    )
                } else {
                    &&& desc.amount == d0.amount
                    &&& entries1 == entries0.update(i, entries0.last()).drop_last()
                }
            }
        }
}

/// Claiming a request with a positive carry cap always changes the
/// advertised entries: the entry shrinks or disappears.
proof fn lemma_claim_changes_entries(
    entries0: Seq<(u32, HaulDescription)>,
    entries1: Seq<(u32, HaulDescription)>,
    desc: HaulDescription,
    max_haul_amount: u8,
)
    requires
        claimed_or_split(entries0, entries1, desc, max_haul_amount),
        max_haul_amount > 0,
    ensures
        entries1 != entries0,
{
    let id = choose|id: u32|
        #![trigger crate::notifications::seq_index_of_id(entries0, id)]
        {
            &&& crate::notifications::seq_contains_id(entries0, id)
            &&& {
                let i = crate::notifications::seq_index_of_id(entries0, id);
                let d0 = entries0[i].1;
                &&& desc.resource == d0.resource
                &&& desc.destination == d0.destination
                &&& if d0.amount > max_haul_amount {
                    &&& desc.amount == max_haul_amount
                    &&& entries1 == entries0.update(
                        i,
                        (
                            id,
                            HaulDescription {
                                resource: d0.resource,
                                amount: (d0.amount - max_haul_amount) as u8,
                                destination: d0.destination,
                            },
                        ),
                    )
                } else {
                    &&& desc.amount == d0.amount
                    &&& entries1 == entries0.update(i, entries0.last()).drop_last()
                }
            }
        };
    let i = crate::notifications::seq_index_of_id(entries0, id);
    let d0 = entries0[i].1;
    if d0.amount > max_haul_amount {
        assert(entries1[i].1.amount != entries0[i].1.amount);
    } else {
        assert(entries1.len() != entries0.len());
    }
}

/// Whether some entity within one step of `pos` offers an unreserved unit
/// of `resource`.
pub open spec fn offers_within_reach(scene: Scene, resource: ResourceVariant, pos: TilePosition) -> bool {
    exists|i: int|
        0 <= i < scene.entities@.len() && (#[trigger] scene.entities@[i]).position.spec_manhattan_distance(
            pos,
        ) < 2 && entity_offers(scene.entities@[i], resource)
}

/// Whether some goal on the stack is a refill-oxygen goal.
pub open spec fn stack_has_refill(stack: Seq<Goal>) -> bool {
    exists|i: int| 0 <= i < stack.len() && (#[trigger] stack[i]) matches Goal::RefillOxygen
}

/// One tick of a work goal: check adjacency to a matching station, request
/// resources over the broker when under-resourced, tick the haul wait timer
/// (claiming the haul as a subgoal once it expires unclaimed), and path to
/// the nearest station when not adjacent to one.
fn run_work(
    wait_ticks: GameTicks,
    self_job: Occupation,
    haul_wait_timeout: Option<(NotificationId, GameTicks)>,
    job: JobStationVariant,
    demoralized: bool,
    current_position: TilePosition,
    scene: &Scene,
    haul_notifications: &mut NotificationSet<HaulDescription>,
    walls: &BitGrid,
) -> (r: (Goal, GoalResolution))
    requires
        scene.wf(),
        scene.positions_in_bounds(*walls),
        old(haul_notifications).wf(),
        old(haul_notifications).spec_next_id() < u32::MAX,
        haul_dests_in_bounds(old(haul_notifications).spec_entries(), *walls),
        walls.wf(),
    ensures
        final(haul_notifications).wf(),
        final(haul_notifications).spec_capacity() == old(haul_notifications).spec_capacity(),
        haul_dests_in_bounds(final(haul_notifications).spec_entries(), *walls),
        goal_wf(r.0) && goal_ok(r.0, *walls),
        r.0 matches Goal::Work { haul_wait_timeout: t2, job: j2 } && j2 == job,
        r.1 matches GoalResolution::Subgoal(g) ==> goal_wf(g) && goal_ok(g, *walls),
        (!demoralized && self_job == Occupation::Operator(job) && station_adjacent(
            *scene,
            job,
            current_position,
        )) ==> !(r.1 is Finished) && !(r.1 is NotAchievable),
        (!demoralized && self_job == Occupation::Operator(job) && station_adjacent(
            *scene,
            job,
            current_position,
        ) && adjacent_stations_under_resourced(*scene, job, current_position)) ==> (
        haul_wait_timeout matches Some(t6) ==> ((t6.1 == 0
            && crate::notifications::seq_contains_id(
            old(haul_notifications).spec_entries(),
            t6.0.0,
        )) ==> {
            let entries0 = old(haul_notifications).spec_entries();
            let ix = crate::notifications::seq_index_of_id(entries0, t6.0.0);
            &&& r.1 matches GoalResolution::Subgoal(g4) && g4 == (Goal::Haul {
                description: entries0[ix].1,
            })
            &&& final(haul_notifications).spec_entries() == entries0.update(
                ix,
                entries0.last(),
            ).drop_last()
            &&& r.0 == (Goal::Work {
                haul_wait_timeout: None::<(NotificationId, GameTicks)>,
                job,
            })
        })),
        (!demoralized && self_job == Occupation::Operator(job) && !station_adjacent(
            *scene,
            job,
            current_position,
        ) && walls.spec_in_bounds(current_position) && (exists|s: Seq<Direction>|
            #[trigger] crate::pathfinding::walk_open(
                current_position.x as int,
                current_position.y as int,
                s,
                *walls,
            ) && hits_station_cell(current_position, s, *walls, *scene, job) && s.len() + 1
                <= crate::pathfinding::MAX_PATH_STEPS)) ==> (r.1 matches GoalResolution::Subgoal(
            g3,
        ) && g3 matches Goal::FollowPath { from: f4, path: p4 }),
{
    let goal_not_achievable: bool = demoralized;
    let occupation_matches: bool = match self_job {
        Occupation::Operator(j2) => j2 == job,
        _ => false,
    };
    let goal_finished: bool = !occupation_matches;
    let mut timeout: Option<(NotificationId, GameTicks)> = haul_wait_timeout;
    let mut subgoal: Option<Goal> = None;
    let mut final_not_achievable: bool = goal_not_achievable;

    // Adjacency scan: the first station of this kind within one step.
    let n: usize = scene.entities.len();
    let mut i: usize = 0;
    let mut within_working_distance: bool = false;
    let mut station_idx: usize = 0;
    while i < n
        invariant
            n == scene.entities@.len(),
            i <= n,
            within_working_distance ==> station_idx < n && entity_is_station(
                scene.entities@[station_idx as int],
                job,
            ) && scene.entities@[station_idx as int].position.spec_manhattan_distance(
                current_position,
            ) < 2,
            !within_working_distance ==> forall|j: int|
                0 <= j < i ==> !(entity_is_station(#[trigger] scene.entities@[j], job)
                    && scene.entities@[j].position.spec_manhattan_distance(current_position)
                    < 2),
        decreases n - i,
    {
        let e = &scene.entities[i];
        let is_station: bool = match &e.job_station {
            Some(status) => status.variant == job,
            None => false,
        };
        if !within_working_distance && is_station && e.position.manhattan_distance(
            current_position,
        ) < 2 {
            within_working_distance = true;
            station_idx = i;
        }
        i = i + 1;
    }
    proof {
        if !within_working_distance && station_adjacent(*scene, job, current_position) {
            let w = choose|w: int|
                0 <= w < scene.entities@.len() && entity_is_station(
                    #[trigger] scene.entities@[w],
                    job,
                ) && scene.entities@[w].position.spec_manhattan_distance(current_position) < 2;
            assert(false);
        }
        if within_working_distance {
            assert(station_adjacent(*scene, job, current_position)) by {
                assert(entity_is_station(scene.entities@[station_idx as int], job)
                    && scene.entities@[station_idx as int].position.spec_manhattan_distance(
                    current_position,
                ) < 2);
            }
        }
    }
    if within_working_distance {
        let station = scene.entities[station_idx];
        match &station.job_station {
            Some(status) => {
                match status.variant.details() {
                    Some(details) => {
                        let current_amount: u8 = match station.stockpile.get_resources(
                            details.resource_variant,
                        ) {
                            Some(a) => a,
                            None => 0,
                        };
                        if current_amount >= details.resource_amount {
                            timeout = None;
                        } else if timeout.is_none() {
                            let description = HaulDescription {
                                resource: details.resource_variant,
                                amount: details.resource_amount,
                                destination: (status.variant, station.position),
                            };
                            let ghost entries0 = haul_notifications.spec_entries();
                            let posted = haul_notifications.notify(description);
                            proof {
                                assert(walls.spec_in_bounds(station.position));
                                assert forall|k: int|
                                    0 <= k < haul_notifications.spec_entries().len() implies
                                    walls.spec_in_bounds(
                                    (#[trigger] haul_notifications.spec_entries()[k]).1.destination.1,
                                ) by {
                                    if k < entries0.len() {
                                        assert(haul_notifications.spec_entries()[k] == entries0[k]);
                                    }
                                }
                            }
                            match posted {
                                Ok(haul_id) => {
                                    timeout = Some((haul_id, wait_ticks));
                                },
                                Err(_) => {},
                            }
                        }
                    },
                    None => {},
                }
            },
            None => {},
        }
    }

    // Haul wait timer: claim the haul ourselves once it expires unclaimed.
    let mut new_timeout: Option<(NotificationId, GameTicks)> = None;
    match timeout {
        None => {},
        Some((haul_id, ticks_left)) => {
            let haul_still_waiting: bool = haul_notifications.check(haul_id);
            if ticks_left == 0 {
                if haul_still_waiting {
                    let ghost entries1 = haul_notifications.spec_entries();
                    let removed = haul_notifications.remove(haul_id);
                    proof {
                        lemma_dests_in_bounds_after_claim(
                            entries1,
                            haul_notifications.spec_entries(),
                            crate::notifications::seq_index_of_id(entries1, haul_id.0),
                            *walls,
                        );
                    }
                    match removed {
                        Some(description) => {
                            proof {
                                let idx = crate::notifications::seq_index_of_id(
                                    entries1,
                                    haul_id.0,
                                );
                                assert(walls.spec_in_bounds(entries1[idx].1.destination.1));
                            }
                            subgoal = Some(Goal::Haul { description });
                        },
                        None => {},
                    }
                }
            } else {
                new_timeout = Some((haul_id, (ticks_left - 1) as GameTicks));
            }
        },
    }
    timeout = new_timeout;

    // Not near a matching station: walk to the nearest one.
    if !within_working_distance {
        let destinations = find_job_stations(scene, job, walls);
        match find_path_to_any(current_position, &destinations, true, walls) {
            Some(path) => {
                subgoal = Some(Goal::FollowPath { from: current_position, path });
            },
            None => {
                final_not_achievable = true;
                proof {
                    if walls.spec_in_bounds(current_position) {
                        assert forall|s: Seq<Direction>|
                            #[trigger] crate::pathfinding::walk_open(
                                current_position.x as int,
                                current_position.y as int,
                                s,
                                *walls,
                            ) && hits_station_cell(
                                current_position,
                                s,
                                *walls,
                                *scene,
                                job,
                            ) implies s.len() + 1 > crate::pathfinding::MAX_PATH_STEPS by {
                            lemma_station_mask_hits(
                                current_position,
                                s,
                                *walls,
                                *scene,
                                job,
                                destinations,
                            );
                        }
                    }
                }
            },
        }
    }

    let goal = Goal::Work { haul_wait_timeout: timeout, job };
    if final_not_achievable {
        (goal, GoalResolution::NotAchievable)
    } else if goal_finished {
        (goal, GoalResolution::Finished)
    } else {
        match subgoal {
            Some(g) => (goal, GoalResolution::Subgoal(g)),
            None => (goal, GoalResolution::InProgress),
        }
    }
}

/// Swap-removing one entry keeps every remaining destination on the grid.
proof fn lemma_dests_in_bounds_after_claim(
    entries0: Seq<(u32, HaulDescription)>,
    entries1: Seq<(u32, HaulDescription)>,
    i: int,
    walls: BitGrid,
)
    requires
        haul_dests_in_bounds(entries0, walls),
        entries1 == entries0 || (0 <= i < entries0.len() && entries1 == entries0.update(
            i,
            entries0.last(),
        ).drop_last()),
    ensures
        haul_dests_in_bounds(entries1, walls),
{
    if entries1 != entries0 {
        assert forall|k: int| 0 <= k < entries1.len() implies walls.spec_in_bounds(
            (#[trigger] entries1[k]).1.destination.1,
        ) by {
            if k == i {
                assert(entries1[k] == entries0[entries0.len() - 1]);
            } else {
                assert(entries1[k] == entries0[k]);
            }
        }
    }
}

/// One tick of a haul goal: pick up nearby units, pocket them, drop
/// overflow on the floor, then walk toward more supply or the destination,
/// delivering once adjacent. When no supply is reachable and nothing is
/// held, the goal is abandoned and the request re-advertised.
#[verifier::rlimit(100)]
#[verifier::spinoff_prover]
fn run_haul(
    current_brain_index: u8,
    description: HaulDescription,
    current_position: TilePosition,
    scene: &mut Scene,
    haul_notifications: &mut NotificationSet<HaulDescription>,
    walls: &BitGrid,
) -> (r: (Goal, GoalResolution))
    requires
        old(scene).wf(),
        old(haul_notifications).wf(),
        old(haul_notifications).spec_next_id() < u32::MAX,
        haul_dests_in_bounds(old(haul_notifications).spec_entries(), *walls),
        walls.wf(),
        walls.spec_in_bounds(description.destination.1),
    ensures
        final(scene).wf(),
        scene_positions_preserved(*old(scene), *final(scene)),
        final(haul_notifications).wf(),
        final(haul_notifications).spec_capacity() == old(haul_notifications).spec_capacity(),
        haul_dests_in_bounds(final(haul_notifications).spec_entries(), *walls),
        goal_wf(r.0) && goal_ok(r.0, *walls),
        r.0 == (Goal::Haul { description }),
        r.1 matches GoalResolution::Subgoal(g) ==> goal_wf(g) && goal_ok(g, *walls),
        !(r.1 is NotAchievable) ==> *final(haul_notifications) == *old(haul_notifications),
        *final(haul_notifications) == *old(haul_notifications) || (final(haul_notifications).spec_next_id() == old(haul_notifications).spec_next_id() + 1 && final(haul_notifications).spec_entries() == old(haul_notifications).spec_entries().push(
            (
                old(haul_notifications).spec_next_id() as u32,
                HaulDescription {
                    resource: description.resource,
                    amount: description.amount,
                    destination: description.destination,
                },
            ),
        )),
{
    let resource: ResourceVariant = description.resource;
    let requested_amount: u8 = description.amount;
    let destination: (JobStationVariant, TilePosition) = description.destination;
    let mut goal_not_achievable: bool = false;
    let mut goal_finished: bool = false;
    let mut subgoal: Option<Goal> = None;

    // Pick the resource up from the current tile and its neighbors.
    let mut picked_up_thus_far: u8 = pick_up_near(
        scene,
        current_position,
        resource,
        requested_amount,
    );

    // Pocket what was picked up, up to the requested amount.
    let mut resources_acquired: bool = false;
    let mut current_amount: u8 = 0;
    match scene.find_character(current_brain_index) {
        Some(char_idx) => {
            let mut me = scene.entities[char_idx];
            current_amount = match me.stockpile.get_resources(resource) {
                Some(a) => a,
                None => 0,
            };
            if picked_up_thus_far > 0 && current_amount < requested_amount {
                let room: u8 = requested_amount - current_amount;
                let pocketed: u8 = if picked_up_thus_far < room {
                    picked_up_thus_far
                } else {
                    room
                };
                match me.stockpile.add_resource(resource, pocketed) {
                    Ok(_) => {
                        me.stockpile.mark_reserved(resource, true);
                        scene.entities[char_idx] = me;
                        picked_up_thus_far = picked_up_thus_far - pocketed;
                        current_amount = current_amount + pocketed;
                    },
                    Err(overflow) => {
                        // The pocket could not fit everything; what did fit
                        // stays pocketed, the rest returns to the floor.
                        me.stockpile.mark_reserved(resource, true);
                        scene.entities[char_idx] = me;
                        picked_up_thus_far = picked_up_thus_far - pocketed + overflow;
                        current_amount = current_amount + pocketed - overflow;
                    },
                }
            }
            if current_amount >= requested_amount {
                resources_acquired = true;
            }
        },
        None => {},
    }

    // Drop what did not fit back onto the floor as a loose pile.
    if picked_up_thus_far > 0 {
        let dropped = Resource {
            position: current_position,
            stockpile: Stockpile::zeroed().with_resource(resource, picked_up_thus_far, false),
            stockpile_reliant: StockpileReliantTag,
        };
        let spawn_result = scene.spawn_resource(dropped);
        match spawn_result {
            Ok(_) => {},
            Err(_) => {},
        }
    }

    // Not enough yet: walk to more supply, settle for what is held, or give
    // the request back to the broker.
    if !resources_acquired {
        let supply_mask = find_non_reserved_resources(scene, resource, walls);
        match find_path_to_any(current_position, &supply_mask, true, walls) {
            Some(path) => {
                subgoal = Some(Goal::FollowPath { from: current_position, path });
            },
            None => {
                if current_amount > 0 {
                    resources_acquired = true;
                } else {
                    goal_not_achievable = true;
                    let ghost entries0 = haul_notifications.spec_entries();
                    let readvertised = haul_notifications.notify(
                        HaulDescription {
                            resource,
                            amount: requested_amount,
                            destination,
                        },
                    );
                    proof {
                        assert forall|k: int|
                            0 <= k < haul_notifications.spec_entries().len() implies
                            walls.spec_in_bounds(
                            (#[trigger] haul_notifications.spec_entries()[k]).1.destination.1,
                        ) by {
                            if k < entries0.len() {
                                assert(haul_notifications.spec_entries()[k] == entries0[k]);
                            }
                        }
                    }
                    match readvertised {
                        Ok(_) => {},
                        Err(_) => {},
                    }
                }
            },
        }
    }

    // Enough in the pocket: walk to the destination, or deliver if already
    // there.
    let mut drop_off: bool = false;
    if resources_acquired {
        match find_path_to(current_position, destination.1, true, walls) {
            Some(path) => {
                if path.is_empty() {
                    drop_off = true;
                    goal_finished = true;
                } else {
                    subgoal = Some(Goal::FollowPath { from: current_position, path });
                }
            },
            None => {},
        }
    }

    if drop_off {
        goal_finished = false;
        // Add the delivery to the destination station's stockpile.
        let n: usize = scene.entities.len();
        let mut i: usize = 0;
        let mut found_station: bool = false;
        let mut station_idx: usize = 0;
        while i < n
            invariant
                n == scene.entities@.len(),
                i <= n,
                found_station ==> station_idx < n,
            decreases n - i,
        {
            let e = &scene.entities[i];
            let matches_destination: bool = match &e.job_station {
                Some(status) => status.variant == destination.0 && e.position == destination.1,
                None => false,
            };
            if !found_station && matches_destination {
                found_station = true;
                station_idx = i;
            }
            i = i + 1;
        }
        let mut dropped_off: u8 = 0;
        if found_station {
            let mut station = scene.entities[station_idx];
            let overflow: u8 = match station.stockpile.add_resource(resource, current_amount) {
                Ok(_) => 0,
                Err(o) => o,
            };
            scene.entities[station_idx] = station;
            dropped_off = current_amount - overflow;
            goal_finished = true;
        }
        // Remove the delivered amount (and any leftover) from the hauler's
        // own stockpile; leftovers return to the floor.
        let mut left_over: u8 = 0;
        match scene.find_character(current_brain_index) {
            Some(char_idx) => {
                let mut me = scene.entities[char_idx];
                let total: u8 = me.stockpile.take_resource(resource, 255);
                me.stockpile.mark_reserved(resource, false);
                scene.entities[char_idx] = me;
                if total > dropped_off {
                    left_over = total - dropped_off;
                }
            },
            None => {},
        }
        if left_over > 0 {
            let leftovers = Resource {
                position: current_position,
                stockpile: Stockpile::zeroed().with_resource(resource, left_over, false),
                stockpile_reliant: StockpileReliantTag,
            };
            let spawn_result = scene.spawn_resource(leftovers);
            match spawn_result {
                Ok(_) => {},
                Err(_) => {},
            }
        }
        if !goal_finished {
            goal_not_achievable = true;
        }
    }

    let goal = Goal::Haul { description };
    if goal_not_achievable {
        (goal, GoalResolution::NotAchievable)
    } else if goal_finished {
        (goal, GoalResolution::Finished)
    } else {
        match subgoal {
            Some(g) => (goal, GoalResolution::Subgoal(g)),
            None => (goal, GoalResolution::InProgress),
        }
    }
}

/// One tick of a path-following goal: finished once the path empties; when
/// the agent was shoved off the anchor, drop the steps it already covered,
/// or replan to the same destination, abandoning when no new path exists.
fn run_follow_path(
    from: TilePosition,
    path: Path,
    current_position: TilePosition,
    walls: &BitGrid,
) -> (r: (Goal, GoalResolution))
    requires
        path.wf(),
        walls.wf(),
    ensures
        goal_wf(r.0) && goal_ok(r.0, *walls),
        r.1 matches GoalResolution::Subgoal(g) ==> goal_wf(g) && goal_ok(g, *walls),
        !(r.1 matches GoalResolution::Subgoal(g2)),
        path@.len() == 0 ==> r.1 is Finished,
        path@.len() > 0 && current_position == from ==> r.1 is InProgress && r.0 == (
        Goal::FollowPath { from, path }),
{
    if path.is_empty() {
        return (Goal::FollowPath { from, path }, GoalResolution::Finished);
    }
    if current_position == from {
        return (Goal::FollowPath { from, path }, GoalResolution::InProgress);
    }
    let len: usize = path.len() as usize;
    let mut cx: i32 = from.x as i32;
    let mut cy: i32 = from.y as i32;
    let mut steps_progressed: usize = 0;
    let mut any_progress: bool = false;
    let mut i: usize = 0;
    while i < len
        invariant
            len == path@.len(),
            path.wf(),
            i <= len,
            len <= 224,
            from.x as int - i <= cx as int <= from.x as int + i,
            from.y as int - i <= cy as int <= from.y as int + i,
            any_progress ==> steps_progressed <= i,
            steps_progressed <= len,
        decreases len - i,
    {
        let step = path.get_step(i);
        match step {
            Direction::Up => {
                cy = cy - 1;
            },
            Direction::Down => {
                cy = cy + 1;
            },
            Direction::Left => {
                cx = cx - 1;
            },
            Direction::Right => {
                cx = cx + 1;
            },
        }
        if cx == current_position.x as i32 && cy == current_position.y as i32 {
            steps_progressed = i + 1;
            any_progress = true;
        }
        i = i + 1;
    }
    if any_progress {
        // Keep only the steps not yet covered.
        let mut truncated = Path::default();
        let mut j: usize = steps_progressed;
        while j < len
            invariant
                len == path@.len(),
                path.wf(),
                steps_progressed <= j <= len,
                len <= 224,
                truncated.wf(),
                truncated@.len() == j - steps_progressed,
            decreases len - j,
        {
            let added = truncated.add_step(path.get_step(j));
            assert(added);
            j = j + 1;
        }
        return (
            Goal::FollowPath { from: current_position, path: truncated },
            GoalResolution::InProgress,
        );
    }
    // Strayed off the path: replan from here to the same destination.
    if cx >= -32768 && cx <= 32767 && cy >= -32768 && cy <= 32767 {
        let target = TilePosition { x: cx as i16, y: cy as i16 };
        if walls.in_bounds(target) {
            match find_path_to(current_position, target, true, walls) {
                Some(new_path) => {
                    return (
                        Goal::FollowPath { from: current_position, path: new_path },
                        GoalResolution::InProgress,
                    );
                },
                None => {
                    return (Goal::FollowPath { from, path }, GoalResolution::NotAchievable);
                },
            }
        }
    }
    (Goal::FollowPath { from, path }, GoalResolution::NotAchievable)
}

/// One tick of a refill-oxygen goal: consume one unreserved unit of oxygen
/// within one step and breathe it in; abandoned when no unit is available,
/// finished once the agent's oxygen reaches its maximum.
fn run_refill_oxygen(
    current_brain_index: u8,
    current_oxygen: u8,
    current_position: TilePosition,
    scene: &mut Scene,
) -> (r: GoalResolution)
    requires
        old(scene).wf(),
    ensures
        final(scene).wf(),
        scene_positions_preserved(*old(scene), *final(scene)),
        !(r matches GoalResolution::Subgoal(g)),
        !offers_within_reach(*old(scene), ResourceVariant::spec_oxygen(), current_position)
            ==> r is NotAchievable && *final(scene) == *old(scene),
{
    let n: usize = scene.entities.len();
    let mut i: usize = 0;
    let mut oxygen_found: bool = false;
    while i < n
        invariant
            scene.wf(),
            scene_positions_preserved(*old(scene), *scene),
            n == scene.entities@.len(),
            i <= n,
            !offers_within_reach(*old(scene), ResourceVariant::spec_oxygen(), current_position)
                ==> !oxygen_found && *scene == *old(scene),
        decreases n - i,
    {
        let e = scene.entities[i];
        if !oxygen_found && e.position.manhattan_distance(current_position) < 2
            && e.stockpile.has_non_reserved_resources(ResourceVariant::oxygen()) {
            let mut updated = e;
            let taken: u8 = updated.stockpile.take_resource(ResourceVariant::oxygen(), 1);
            if taken == 1 {
                scene.entities[i] = updated;
                oxygen_found = true;
            }
        }
        i = i + 1;
    }
    if !oxygen_found {
        return GoalResolution::NotAchievable;
    }
    // Breathe the consumed unit in.
    match scene.find_character(current_brain_index) {
        Some(char_idx) => {
            let mut me = scene.entities[char_idx];
            match me.character {
                Some(status) => {
                    let mut updated_status = status;
                    updated_status.oxygen = if status.oxygen < 255 {
                        status.oxygen + 1
                    } else {
                        255
                    };
                    me.character = Some(updated_status);
                    scene.entities[char_idx] = me;
                },
                None => {},
            }
        },
        None => {},
    }
    if current_oxygen >= CharacterStatus::MAX_OXYGEN - 1 {
        GoalResolution::Finished
    } else {
        GoalResolution::InProgress
    }
}

impl Brain {
    /// One tick of a relax goal: pick the deterministic wander target inside
    /// the box and walk there; revisiting the goal on a later tick finishes
    /// it.
    fn run_relax(
        &mut self,
        relax_start_tick: GameTicks,
        walk_aabb: (TilePosition, TilePosition),
        current_brain_index: u8,
        current_position: TilePosition,
        current_tick: GameTicks,
        walls: &BitGrid,
    ) -> (r: GoalResolution)
        requires
            walls.wf(),
        ensures
            final(self).goal_stack == old(self).goal_stack,
            final(self).job == old(self).job,
            final(self).max_haul_amount == old(self).max_haul_amount,
            final(self).wait_ticks == old(self).wait_ticks,
            final(self).ticks_without_goal == old(self).ticks_without_goal,
            final(self).has_relaxed,
            r matches GoalResolution::Subgoal(g) ==> goal_wf(g) && goal_ok(g, *walls),
            relax_start_tick != current_tick ==> r is Finished,
    {
        self.has_relaxed = true;
        if relax_start_tick != current_tick {
            return GoalResolution::Finished;
        }
        let target = relax_target(current_brain_index, current_position, current_tick, walk_aabb);
        if walls.in_bounds(target) {
            match find_path_to(current_position, target, true, walls) {
                Some(path) => {
                    return GoalResolution::Subgoal(
                        Goal::FollowPath { from: current_position, path },
                    );
                },
                None => {},
            }
        }
        GoalResolution::InProgress
    }

    /// Runs one planner tick for this agent: seed a goal from the
    /// occupation when idle, interrupt for low oxygen, fall back to
    /// relaxing, then execute the top goal exactly once, applying at most
    /// one resolution (pop, pop, or push; a push past the depth bound
    /// clears the whole stack instead).
    pub fn update_goals(
        &mut self,
        current_brain_index: u8,
        current_position: TilePosition,
        current_tick: GameTicks,
        scene: &mut Scene,
        haul_notifications: &mut NotificationSet<HaulDescription>,
        walls: &BitGrid,
    )
        requires
            old(self).wf(),
            stack_ok(old(self).goal_stack@, *walls),
            old(scene).wf(),
            old(scene).positions_in_bounds(*walls),
            old(haul_notifications).wf(),
            old(haul_notifications).spec_next_id() < u32::MAX,
            haul_dests_in_bounds(old(haul_notifications).spec_entries(), *walls),
            walls.wf(),
        ensures
            final(self).wf(),
            final(self).goal_stack@.len() <= MAX_GOALS,
            stack_ok(final(self).goal_stack@, *walls),
            final(self).job == old(self).job,
            final(self).max_haul_amount == old(self).max_haul_amount,
            final(self).wait_ticks == old(self).wait_ticks,
            final(scene).wf(),
            scene_positions_preserved(*old(scene), *final(scene)),
            final(haul_notifications).wf(),
            final(haul_notifications).spec_capacity() == old(haul_notifications).spec_capacity(),
            haul_dests_in_bounds(final(haul_notifications).spec_entries(), *walls),
            (forall|i: int|
                0 <= i < old(scene).entities@.len() ==> !entity_is_brain(
                    #[trigger] old(scene).entities@[i],
                    current_brain_index,
                )) ==> final(self).goal_stack@.len() == 0 && *final(scene) == *old(scene)
                && *final(haul_notifications) == *old(haul_notifications),
            old(self).goal_stack@.len() == 0 && brain_is_active(
                *old(scene),
                current_brain_index,
            ) && old(self).ticks_without_goal < old(self).wait_ticks ==> (old(self).job matches
                Occupation::Operator(j) ==> final(self).goal_stack@.len() == 0 || (final(
            self).goal_stack@[0] matches Goal::Work { haul_wait_timeout: t, job: j2 } && j2
                == j)),
            old(self).goal_stack@.len() == 0 && brain_is_active(
                *old(scene),
                current_brain_index,
            ) && old(self).job == Occupation::Hauler && old(self).ticks_without_goal < old(self).wait_ticks ==> final(self).goal_stack@.len() == 0 || (final(
            self).goal_stack@[0] matches Goal::Haul { description: d } && d.amount <= old(self).max_haul_amount && claimed_or_split(
                old(haul_notifications).spec_entries(),
                final(haul_notifications).spec_entries(),
                d,
                old(self).max_haul_amount,
            )),
            old(self).goal_stack@.len() == 0 && brain_is_active(
                *old(scene),
                current_brain_index,
            ) && old(self).ticks_without_goal < old(self).wait_ticks ==> (old(self).job matches
                Occupation::Operator(j) ==> (station_adjacent(
                *old(scene),
                j,
                current_position,
            ) ==> final(self).goal_stack@.len() >= 1 && (final(
            self).goal_stack@[0] matches Goal::Work { haul_wait_timeout: t2, job: j3 } && j3
                == j))),
            (old(self).goal_stack@.len() <= 6 && !stack_has_refill(old(self).goal_stack@)
                && walls.spec_in_bounds(current_position) && (exists|i: int|
                0 <= i < old(scene).entities@.len() && entity_is_brain(
                    #[trigger] old(scene).entities@[i],
                    current_brain_index,
                )) && (forall|i: int|
                #[trigger] is_first_brain(*old(scene), current_brain_index, i) ==> (old(scene).entities@[i].character matches Some(st) && 0 < st.oxygen && st.oxygen
                    <= CharacterStatus::LOW_OXYGEN_THRESHOLD)) && (exists|s: Seq<Direction>|
                #[trigger] crate::pathfinding::walk_open(
                    current_position.x as int,
                    current_position.y as int,
                    s,
                    *walls,
                ) && hits_offering_cell(
                    current_position,
                    s,
                    *walls,
                    *old(scene),
                    ResourceVariant::spec_oxygen(),
                ) && s.len() + 1 <= crate::pathfinding::MAX_PATH_STEPS))
                ==> stack_has_refill(final(self).goal_stack@),
            old(self).goal_stack@.len() == MAX_GOALS && brain_is_active(
                *old(scene),
                current_brain_index,
            ) && walls.spec_in_bounds(current_position) ==> (old(self).goal_stack@.last() matches
                Goal::Work { haul_wait_timeout: t5, job: j5 } ==> (old(self).job
                == Occupation::Operator(j5) && !station_adjacent(
                *old(scene),
                j5,
                current_position,
            ) && (exists|s: Seq<Direction>|
                #[trigger] crate::pathfinding::walk_open(
                    current_position.x as int,
                    current_position.y as int,
                    s,
                    *walls,
                ) && hits_station_cell(current_position, s, *walls, *old(scene), j5) && s.len()
                    + 1 <= crate::pathfinding::MAX_PATH_STEPS) ==> final(self).goal_stack@.len() == 0)),
            1 <= old(self).goal_stack@.len() < MAX_GOALS && brain_is_active(
                *old(scene),
                current_brain_index,
            ) ==> (old(self).goal_stack@.last() matches Goal::Work {
                haul_wait_timeout: t7,
                job: j7,
            } ==> ((old(self).job == Occupation::Operator(j7) && station_adjacent(
                *old(scene),
                j7,
                current_position,
            ) && adjacent_stations_under_resourced(*old(scene), j7, current_position)) ==> (
            t7 matches Some(t8) ==> ((t8.1 == 0 && crate::notifications::seq_contains_id(
                old(haul_notifications).spec_entries(),
                t8.0.0,
            )) ==> {
                let entries0 = old(haul_notifications).spec_entries();
                let ix = crate::notifications::seq_index_of_id(entries0, t8.0.0);
                &&& final(self).goal_stack@.len() == old(self).goal_stack@.len() + 1
                &&& final(self).goal_stack@[old(self).goal_stack@.len() - 1] == (Goal::Work {
                    haul_wait_timeout: None::<(NotificationId, GameTicks)>,
                    job: j7,
                })
                &&& final(self).goal_stack@.last() == (Goal::Haul { description: entries0[ix].1 })
                &&& final(haul_notifications).spec_entries() == entries0.update(
                    ix,
                    entries0.last(),
                ).drop_last()
            })))),
            1 <= old(self).goal_stack@.len() && brain_is_active(
                *old(scene),
                current_brain_index,
            ) ==> (old(self).goal_stack@.last() matches Goal::FollowPath {
                from: f9,
                path: p9,
            } ==> {
                &&& p9@.len() == 0 ==> final(self).goal_stack@ == old(self).goal_stack@.drop_last()
                &&& (p9@.len() > 0 && current_position == f9) ==> final(self).goal_stack@ == old(self).goal_stack@
            }),
            1 <= old(self).goal_stack@.len() && brain_is_active(
                *old(scene),
                current_brain_index,
            ) ==> (old(self).goal_stack@.last() matches Goal::Relax {
                relax_start_tick: rt9,
                walk_aabb: ab9,
            } ==> (rt9 != current_tick ==> final(self).goal_stack@ == old(self).goal_stack@.drop_last() && final(self).has_relaxed)),
            (old(self).goal_stack@.len() == 0 && brain_is_active(
                *old(scene),
                current_brain_index,
            ) && old(self).job == Occupation::Hauler && old(self).ticks_without_goal < old(self).wait_ticks && old(self).max_haul_amount > 0 && walls.spec_in_bounds(
                current_position,
            ) && (exists|i: int|
                0 <= i < old(haul_notifications).spec_entries().len() && haul_viable(
                    current_position,
                    (#[trigger] old(haul_notifications).spec_entries()[i]).1,
                    *old(scene),
                    *walls,
                ))) ==> !(final(self).goal_stack@.len() == 0 && *final(haul_notifications)
                == *old(haul_notifications) && final(haul_notifications).spec_next_id() == old(haul_notifications).spec_next_id()),
            (1 <= old(self).goal_stack@.len() && (exists|i: int|
                0 <= i < old(scene).entities@.len() && entity_is_brain(
                    #[trigger] old(scene).entities@[i],
                    current_brain_index,
                )) && (forall|i: int|
                #[trigger] is_first_brain(*old(scene), current_brain_index, i) ==> (old(scene).entities@[i].character matches Some(st) && st.oxygen > 0))
                && !offers_within_reach(
                *old(scene),
                ResourceVariant::spec_oxygen(),
                current_position,
            )) ==> (old(self).goal_stack@.last() matches Goal::RefillOxygen ==> final(self).goal_stack@ == old(self).goal_stack@.drop_last() && *final(scene) == *old(scene)),
            forall|i: int|
                #[trigger] is_first_brain(*old(scene), current_brain_index, i) ==> (match old(scene).entities@[i].character {
                    Some(st) => st.oxygen == 0 ==> final(self).goal_stack@.len() == 0 && *final(scene) == *old(scene) && *final(haul_notifications) == *old(haul_notifications)
                        && final(self).ticks_without_goal == old(self).ticks_without_goal
                        && final(self).has_relaxed == old(self).has_relaxed,
                    None => true,
                }),
    {
        // Read this agent's status; a missing or suffocated agent plans
        // nothing and drops every goal.
        let current_status: CharacterStatus = match scene.find_character(current_brain_index) {
            Some(idx) => {
                proof {
                    assert(is_first_brain(*old(scene), current_brain_index, idx as int));
                }
                match scene.entities[idx].character {
                    Some(status) => status,
                    None => vstd::pervasive::unreached(),
                }
            },
            None => {
                proof {
                    if exists|i: int|
                        0 <= i < old(scene).entities@.len() && entity_is_brain(
                            #[trigger] old(scene).entities@[i],
                            current_brain_index,
                        ) {
                        let w = choose|i: int|
                            0 <= i < old(scene).entities@.len() && entity_is_brain(
                                #[trigger] old(scene).entities@[i],
                                current_brain_index,
                            );
                        assert(false);
                    }
                }
                self.goal_stack.clear();
                return ;
            },
        };
        if current_status.oxygen == 0 {
            self.goal_stack.clear();
            return ;
        }
        let demoralized: bool = current_status.morale <= CharacterStatus::LOW_MORALE_THRESHOLD;

        // Goal seeding: pick something occupation-based to do.
        if self.goal_stack.len() == 0 && !demoralized {
            match self.job {
                Occupation::Idle => {},
                Occupation::Operator(job) => {
                    let ghost pre_seed: Seq<Goal> = self.goal_stack@;
                    self.goal_stack.push(Goal::Work { haul_wait_timeout: None, job });
                    proof {
                        lemma_refill_push(pre_seed, Goal::Work { haul_wait_timeout: None, job });
                    }
                },
                Occupation::Hauler => {
                    let claimed = find_haul_work(
                        self.max_haul_amount,
                        current_position,
                        scene,
                        haul_notifications,
                        walls,
                    );
                    match claimed {
                        Some(description) => {
                            proof {
                                if self.max_haul_amount > 0 {
                                    lemma_claim_changes_entries(
                                        old(haul_notifications).spec_entries(),
                                        haul_notifications.spec_entries(),
                                        description,
                                        self.max_haul_amount,
                                    );
                                }
                            }
                            let ghost pre_seed: Seq<Goal> = self.goal_stack@;
                            self.goal_stack.push(Goal::Haul { description });
                            proof {
                                lemma_refill_push(pre_seed, Goal::Haul { description });
                            }
                        },
                        None => {},
                    }
                },
            }
        }

        proof {
            if self.goal_stack@.len() > 0 && (self.goal_stack@.last() matches
                Goal::RefillOxygen) {
                assert(self.goal_stack@[self.goal_stack@.len() - 1] matches Goal::RefillOxygen);
                assert(stack_has_refill(self.goal_stack@));
            }
        }
        // Survival interrupt: chase reachable oxygen when running low. A
        // stack too deep for the two pushes is reset outright, like any
        // other overflowing push: full replan next tick.
        if current_status.oxygen <= CharacterStatus::LOW_OXYGEN_THRESHOLD
            && !self.stack_contains_refill() {
            let oxygen_mask = find_non_reserved_resources(
                scene,
                ResourceVariant::oxygen(),
                walls,
            );
            match find_path_to_any(current_position, &oxygen_mask, true, walls) {
                Some(path) => {
                    if self.goal_stack.len() + 2 <= MAX_GOALS {
                        self.goal_stack.push(Goal::RefillOxygen);
                        self.goal_stack.push(
                            Goal::FollowPath { from: current_position, path },
                        );
                        proof {
                            assert(self.goal_stack@[self.goal_stack@.len() - 2] matches
                                Goal::RefillOxygen);
                        }
                    } else {
                        self.goal_stack.clear();
                    }
                },
                None => {
                    proof {
                        if walls.spec_in_bounds(current_position) {
                            assert forall|s: Seq<Direction>|
                                #[trigger] crate::pathfinding::walk_open(
                                    current_position.x as int,
                                    current_position.y as int,
                                    s,
                                    *walls,
                                ) && hits_offering_cell(
                                    current_position,
                                    s,
                                    *walls,
                                    *scene,
                                    ResourceVariant::spec_oxygen(),
                                ) implies s.len() + 1 > crate::pathfinding::MAX_PATH_STEPS by {
                                lemma_offering_mask_hits(
                                    current_position,
                                    s,
                                    *walls,
                                    *scene,
                                    ResourceVariant::spec_oxygen(),
                                    oxygen_mask,
                                );
                            }
                        }
                    }
                },
            }
        }

        // Idle fallback: relax after waiting long enough, or when
        // demoralized.
        if self.goal_stack.len() == 0 {
            if self.ticks_without_goal >= self.wait_ticks || demoralized {
                let aabb = relax_box(current_position, walls);
                self.goal_stack.push(
                    Goal::Relax { relax_start_tick: current_tick, walk_aabb: aabb },
                );
            } else {
                self.ticks_without_goal = self.ticks_without_goal + 1;
            }
        }

        // Execute the top goal exactly once.
        let ghost pre_exec: Seq<Goal> = self.goal_stack@;
        let popped: Option<Goal> = self.goal_stack.pop();
        let current_goal: Goal = match popped {
            Some(g) => g,
            None => {
                return ;
            },
        };
        let (kept_goal, resolution): (Goal, GoalResolution) = match current_goal {
            Goal::Work { haul_wait_timeout, job } => run_work(
                self.wait_ticks,
                self.job,
                haul_wait_timeout,
                job,
                demoralized,
                current_position,
                scene,
                haul_notifications,
                walls,
            ),
            Goal::Haul { description } => run_haul(
                current_brain_index,
                description,
                current_position,
                scene,
                haul_notifications,
                walls,
            ),
            Goal::FollowPath { from, path } => run_follow_path(
                from,
                path,
                current_position,
                walls,
            ),
            Goal::Relax { relax_start_tick, walk_aabb } => {
                let resolution = self.run_relax(
                    relax_start_tick,
                    walk_aabb,
                    current_brain_index,
                    current_position,
                    current_tick,
                    walls,
                );
                (Goal::Relax { relax_start_tick, walk_aabb }, resolution)
            },
            Goal::RefillOxygen => {
                let resolution = run_refill_oxygen(
                    current_brain_index,
                    current_status.oxygen,
                    current_position,
                    scene,
                );
                (Goal::RefillOxygen, resolution)
            },
        };
        match resolution {
            GoalResolution::InProgress => {
                let ghost kept_snapshot: Goal = kept_goal;
                self.goal_stack.push(kept_goal);
                proof {
                    if pre_exec.len() > 0 && kept_snapshot == pre_exec.last() {
                        assert(self.goal_stack@ =~= pre_exec);
                    }
                }
            },
            GoalResolution::Finished => {},
            GoalResolution::NotAchievable => {},
            GoalResolution::Subgoal(subgoal) => {
                self.goal_stack.push(kept_goal);
                if self.goal_stack.len() < MAX_GOALS {
                    self.goal_stack.push(subgoal);
                } else {
                    // Out of stack: reconsider everything next tick.
                    self.goal_stack.clear();
                }
            },
        }
        proof {
            // A refill goal sitting below the executed top survives the
            // tick's one resolution (unless the stack was reset).
            if pre_exec.len() >= 2 && (pre_exec[pre_exec.len() - 2] matches Goal::RefillOxygen)
                && self.goal_stack@.len() > 0 {
                assert(self.goal_stack@[pre_exec.len() - 2] matches Goal::RefillOxygen);
                assert(stack_has_refill(self.goal_stack@));
            }
        }
    }

    /// Whether a refill-oxygen goal is already queued anywhere on the
    /// stack.
    fn stack_contains_refill(&self) -> (r: bool)
        ensures
            r == stack_has_refill(self.goal_stack@),
    {
        let n: usize = self.goal_stack.len();
        let mut i: usize = 0;
        while i < n
            invariant
                n == self.goal_stack@.len(),
                i <= n,
                forall|j: int|
                    0 <= j < i ==> !((#[trigger] self.goal_stack@[j]) matches Goal::RefillOxygen),
            decreases n - i,
        {
            match &self.goal_stack[i] {
                Goal::RefillOxygen => {
                    return true;
                },
                _ => {},
            }
            i = i + 1;
        }
        false
    }
}

/// The small bounding box a relaxing agent wanders in: five tiles around
/// its position, clamped to the grid.
fn relax_box(current_position: TilePosition, walls: &BitGrid) -> (r: (
    TilePosition,
    TilePosition,
))
    requires
        walls.wf(),
{
    proof {
        walls.lemma_dims();
    }
    let width: usize = walls.width();
    let height: usize = walls.height();
    let x0: i32 = current_position.x as i32 - 5;
    let y0: i32 = current_position.y as i32 - 5;
    let mut x1: i32 = current_position.x as i32 + 5;
    let mut y1: i32 = current_position.y as i32 + 5;
    if x1 > width as i32 - 1 {
        x1 = width as i32 - 1;
    }
    if y1 > height as i32 - 1 {
        y1 = height as i32 - 1;
    }
    let low = TilePosition {
        x: if x0 < -32768 {
            -32768
        } else {
            x0 as i16
        },
        y: if y0 < -32768 {
            -32768
        } else {
            y0 as i16
        },
    };
    let high = TilePosition {
        x: if x1 < -32768 {
            -32768
        } else {
            x1 as i16
        },
        y: if y1 < -32768 {
            -32768
        } else {
            y1 as i16
        },
    };
    (low, high)
}

/// Entries produced by updating or swap-removing keep their destinations on
/// the grid: each new entry is one of the old ones, except possibly one
/// whose destination is unchanged.
proof fn lemma_dests_in_bounds_update(
    entries0: Seq<(u32, HaulDescription)>,
    entries1: Seq<(u32, HaulDescription)>,
    walls: BitGrid,
)
    requires
        haul_dests_in_bounds(entries0, walls),
        forall|i: int|
            0 <= i < entries1.len() ==> (exists|j: int|
                0 <= j < entries0.len() && (#[trigger] entries1[i]).1.destination
                    == entries0[j].1.destination),
    ensures
        haul_dests_in_bounds(entries1, walls),
{
}

} // verus!
