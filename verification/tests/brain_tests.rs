use colony_core::brain::{relax_target, Brain, Goal, HaulDescription, Occupation};
use colony_core::game_object::{
    Character, CharacterStatus, Collider, JobStation, JobStationStatus, JobStationVariant,
    Personality, Resource, ResourceVariant, Stockpile, StockpileReliantTag, TilePosition,
};
use colony_core::grid::BitGrid;
use colony_core::notifications::NotificationSet;
use colony_core::scene::Scene;

fn healthy_status(brain_index: u8) -> CharacterStatus {
    CharacterStatus {
        brain_index,
        oxygen: CharacterStatus::MAX_OXYGEN,
        oxygen_depletion_amount: CharacterStatus::BASE_OXYGEN_DEPLETION_AMOUNT,
        morale: CharacterStatus::MAX_MORALE,
        morale_depletion_amount: CharacterStatus::BASE_MORALE_DEPLETION_AMOUNT,
        morale_relaxing_increment: CharacterStatus::BASE_MORALE_RELAXING_INCREMENT,
        personality: Personality::zeroed(),
    }
}

fn character_at(brain_index: u8, x: i16, y: i16) -> Character {
    Character {
        status: healthy_status(brain_index),
        position: TilePosition::new(x, y),
        held: Stockpile::zeroed(),
        collider: Collider::not_walkable(),
    }
}

fn station_at(variant: JobStationVariant, x: i16, y: i16) -> JobStation {
    JobStation {
        position: TilePosition::new(x, y),
        stockpile: Stockpile::zeroed(),
        status: JobStationStatus { variant, work_invested: 0 },
        collider: Collider::not_walkable(),
    }
}

fn magma_pile_at(x: i16, y: i16, amount: u8) -> Resource {
    Resource {
        position: TilePosition::new(x, y),
        stockpile: Stockpile::zeroed().with_resource(ResourceVariant::magma(), amount, false),
        stockpile_reliant: StockpileReliantTag,
    }
}

#[test]
fn relax_target_is_deterministic() {
    let aabb = (TilePosition::new(2, 2), TilePosition::new(8, 8));
    let first = relax_target(3, TilePosition::new(5, 5), 77, aabb);
    let second = relax_target(3, TilePosition::new(5, 5), 77, aabb);
    assert_eq!(first, second);
    assert!(first.x >= 2 && first.x <= 8);
    assert!(first.y >= 2 && first.y <= 8);
    // The hash actually reacts to its inputs: over many ticks the chosen
    // targets vary.
    let mut distinct = std::collections::BTreeSet::new();
    for tick in 0..64u64 {
        let t = relax_target(3, TilePosition::new(5, 5), tick, aabb);
        distinct.insert((t.x, t.y));
        assert!(t.x >= 2 && t.x <= 8 && t.y >= 2 && t.y <= 8);
    }
    assert!(distinct.len() > 1);
}

#[test]
fn update_goals_is_deterministic_for_relaxing_agents() {
    // Identical demoralized worlds: both runs pick the bit-identical wander
    // path.
    let run = || {
        let mut scene = Scene::new(16);
        let mut character = character_at(0, 5, 5);
        character.status.morale = CharacterStatus::LOW_MORALE_THRESHOLD;
        scene.add_character(character).unwrap();
        let mut brain = Brain::new();
        let mut broker: NotificationSet<HaulDescription> = NotificationSet::new(8);
        let walls = BitGrid::new(12, 12).unwrap();
        brain.update_goals(0, TilePosition::new(5, 5), 40, &mut scene, &mut broker, &walls);
        brain
    };
    let a = run();
    let b = run();
    assert_eq!(a.goal_stack.len(), b.goal_stack.len());
    assert_eq!(a.goal_stack.len(), 2);
    match (&a.goal_stack[1], &b.goal_stack[1]) {
        (Goal::FollowPath { path: pa, from: fa }, Goal::FollowPath { path: pb, from: fb }) => {
            assert_eq!(fa, fb);
            assert_eq!(pa.len(), pb.len());
            for i in 0..pa.len() as usize {
                assert_eq!(pa.get_step(i), pb.get_step(i));
            }
        }
        _ => panic!("expected a wander path on top of the relax goal"),
    }
    assert!(matches!(a.goal_stack[0], Goal::Relax { .. }));
    assert!(a.has_relaxed);
}

#[test]
fn haul_claim_splits_at_carry_capacity() {
    // A five-unit request against a two-unit carry cap: the claim takes two
    // units, the broker keeps three, and the entry stays claimable.
    let mut scene = Scene::new(16);
    scene.add_character(character_at(0, 0, 0)).unwrap();
    scene.spawn_resource(magma_pile_at(5, 5, 20)).unwrap();
    let mut broker: NotificationSet<HaulDescription> = NotificationSet::new(8);
    let id = broker
        .notify(HaulDescription {
            resource: ResourceVariant::magma(),
            amount: 5,
            destination: (JobStationVariant::energy_generator(), TilePosition::new(9, 9)),
        })
        .unwrap();
    let mut brain = Brain::new();
    brain.job = Occupation::Hauler;
    assert_eq!(brain.max_haul_amount, 2);
    let walls = BitGrid::new(10, 10).unwrap();
    brain.update_goals(0, TilePosition::new(0, 0), 1, &mut scene, &mut broker, &walls);
    // The capped claim sits on the stack...
    match &brain.goal_stack[0] {
        Goal::Haul { description } => {
            assert_eq!(description.amount, 2);
            assert_eq!(description.resource, ResourceVariant::magma());
        }
        other => panic!("expected a haul goal, got {other:?}"),
    }
    // ...and the remainder stays advertised for other agents.
    assert!(broker.check(id));
    let remainder = broker.get(id).unwrap();
    assert_eq!(remainder.amount, 3);
    assert_eq!(broker.len(), 1);
}

#[test]
fn work_timeout_converts_to_self_haul() {
    // A work goal whose haul wait expired while the request sat unclaimed
    // turns into a haul subgoal the same tick, keeping the work goal
    // underneath.
    let mut scene = Scene::new(16);
    scene.add_character(character_at(0, 0, 0)).unwrap();
    scene
        .add_job_station(station_at(JobStationVariant::energy_generator(), 1, 0))
        .unwrap();
    let mut broker: NotificationSet<HaulDescription> = NotificationSet::new(8);
    let pending = HaulDescription {
        resource: ResourceVariant::magma(),
        amount: 3,
        destination: (JobStationVariant::energy_generator(), TilePosition::new(1, 0)),
    };
    let id = broker.notify(pending).unwrap();
    let mut brain = Brain::new();
    brain.job = Occupation::Operator(JobStationVariant::energy_generator());
    brain.goal_stack.push(Goal::Work {
        haul_wait_timeout: Some((id, 0)),
        job: JobStationVariant::energy_generator(),
    });
    let walls = BitGrid::new(10, 10).unwrap();
    brain.update_goals(0, TilePosition::new(0, 0), 5, &mut scene, &mut broker, &walls);
    assert_eq!(brain.goal_stack.len(), 2);
    match &brain.goal_stack[0] {
        Goal::Work { haul_wait_timeout, .. } => assert!(haul_wait_timeout.is_none()),
        other => panic!("expected the suspended work goal, got {other:?}"),
    }
    match &brain.goal_stack[1] {
        Goal::Haul { description } => assert_eq!(*description, pending),
        other => panic!("expected the self-haul subgoal, got {other:?}"),
    }
    assert!(!broker.check(id));
}

#[test]
fn goal_stack_overflow_clears_the_stack() {
    // A subgoal push past the depth bound resets the whole stack instead of
    // dropping the subgoal or panicking.
    let mut scene = Scene::new(16);
    scene.add_character(character_at(0, 0, 0)).unwrap();
    scene
        .add_job_station(station_at(JobStationVariant::energy_generator(), 8, 8))
        .unwrap();
    let mut broker: NotificationSet<HaulDescription> = NotificationSet::new(8);
    let walls = BitGrid::new(10, 10).unwrap();
    let mut brain = Brain::new();
    brain.job = Occupation::Operator(JobStationVariant::energy_generator());
    for _ in 0..8 {
        brain.goal_stack.push(Goal::Work {
            haul_wait_timeout: None,
            job: JobStationVariant::energy_generator(),
        });
    }
    // The distant station forces a path subgoal; at depth 8 that push must
    // clear everything.
    brain.update_goals(0, TilePosition::new(0, 0), 1, &mut scene, &mut broker, &walls);
    assert_eq!(brain.goal_stack.len(), 0);
}

#[test]
fn goal_stack_never_exceeds_bound() {
    let mut scene = Scene::new(16);
    scene.add_character(character_at(0, 0, 0)).unwrap();
    scene
        .add_job_station(station_at(JobStationVariant::energy_generator(), 8, 8))
        .unwrap();
    let mut broker: NotificationSet<HaulDescription> = NotificationSet::new(64);
    let walls = BitGrid::new(10, 10).unwrap();
    let mut brain = Brain::new();
    brain.job = Occupation::Operator(JobStationVariant::energy_generator());
    for tick in 0..100u64 {
        brain.update_goals(0, TilePosition::new(0, 0), tick, &mut scene, &mut broker, &walls);
        assert!(brain.goal_stack.len() <= 8, "stack overflowed at tick {tick}");
    }
}

#[test]
fn suffocated_agent_drops_all_goals() {
    let mut scene = Scene::new(16);
    let mut character = character_at(0, 0, 0);
    character.status.oxygen = 0;
    scene.add_character(character).unwrap();
    let mut broker: NotificationSet<HaulDescription> = NotificationSet::new(8);
    let walls = BitGrid::new(10, 10).unwrap();
    let mut brain = Brain::new();
    brain.goal_stack.push(Goal::RefillOxygen);
    brain.update_goals(0, TilePosition::new(0, 0), 1, &mut scene, &mut broker, &walls);
    assert!(brain.goal_stack.is_empty());
}

#[test]
fn operator_seeds_work_and_requests_resources() {
    // An operator beside an under-resourced station posts a haul request
    // the same tick and keeps working.
    let mut scene = Scene::new(16);
    scene.add_character(character_at(0, 0, 0)).unwrap();
    scene
        .add_job_station(station_at(JobStationVariant::energy_generator(), 1, 0))
        .unwrap();
    let mut broker: NotificationSet<HaulDescription> = NotificationSet::new(8);
    let walls = BitGrid::new(10, 10).unwrap();
    let mut brain = Brain::new();
    brain.job = Occupation::Operator(JobStationVariant::energy_generator());
    brain.update_goals(0, TilePosition::new(0, 0), 1, &mut scene, &mut broker, &walls);
    assert_eq!(broker.len(), 1);
    let (_, request) = broker.entry_at(0);
    assert_eq!(request.resource, ResourceVariant::magma());
    assert_eq!(request.amount, 3);
    assert_eq!(request.destination.1, TilePosition::new(1, 0));
    assert_eq!(brain.goal_stack.len(), 1);
    match &brain.goal_stack[0] {
        Goal::Work { haul_wait_timeout, .. } => {
            // The fresh timer already ticked once this tick.
            let (_, ticks_left) = haul_wait_timeout.unwrap();
            assert_eq!(ticks_left, brain.wait_ticks - 1);
        }
        other => panic!("expected a work goal, got {other:?}"),
    }
}

#[test]
fn low_oxygen_interrupts_with_a_refill_plan() {
    let mut scene = Scene::new(16);
    let mut character = character_at(0, 0, 0);
    character.status.oxygen = CharacterStatus::LOW_OXYGEN_THRESHOLD;
    scene.add_character(character).unwrap();
    let oxygen_pile = Resource {
        position: TilePosition::new(4, 0),
        stockpile: Stockpile::zeroed().with_resource(ResourceVariant::oxygen(), 9, false),
        stockpile_reliant: StockpileReliantTag,
    };
    scene.spawn_resource(oxygen_pile).unwrap();
    let mut broker: NotificationSet<HaulDescription> = NotificationSet::new(8);
    let walls = BitGrid::new(10, 10).unwrap();
    let mut brain = Brain::new();
    brain.update_goals(0, TilePosition::new(0, 0), 1, &mut scene, &mut broker, &walls);
    // The walk executes first; the refill goal waits underneath.
    assert!(matches!(brain.goal_stack[0], Goal::RefillOxygen));
    assert!(matches!(brain.goal_stack[1], Goal::FollowPath { .. }));
}

#[test]
fn idle_agent_waits_then_relaxes() {
    let mut scene = Scene::new(16);
    scene.add_character(character_at(0, 5, 5)).unwrap();
    let mut broker: NotificationSet<HaulDescription> = NotificationSet::new(8);
    let walls = BitGrid::new(12, 12).unwrap();
    let mut brain = Brain::new();
    brain.wait_ticks = 3;
    for tick in 0..3u64 {
        brain.update_goals(0, TilePosition::new(5, 5), tick, &mut scene, &mut broker, &walls);
        assert_eq!(brain.ticks_without_goal, tick + 1);
        assert!(brain.goal_stack.is_empty());
    }
    brain.update_goals(0, TilePosition::new(5, 5), 3, &mut scene, &mut broker, &walls);
    assert!(matches!(brain.goal_stack[0], Goal::Relax { .. }));
}

#[test]
fn finished_path_reports_next_move_until_done() {
    let mut brain = Brain::new();
    let walls = BitGrid::new(10, 10).unwrap();
    let path = colony_core::pathfinding::find_path_to(
        TilePosition::new(0, 0),
        TilePosition::new(2, 0),
        false,
        &walls,
    )
    .unwrap();
    brain.goal_stack.push(Goal::FollowPath { from: TilePosition::new(0, 0), path });
    assert_eq!(
        brain.next_move_direction(),
        Some(colony_core::pathfinding::Direction::Right)
    );
    assert_eq!(brain.current_job(), None);
}

#[test]
fn deep_stack_low_oxygen_interrupt_resets() {
    // The survival interrupt cannot stack two more goals onto a near-full
    // stack; instead of skipping it silently, the whole stack resets for a
    // clean replan.
    let mut scene = Scene::new(16);
    let mut character = character_at(0, 0, 0);
    character.status.oxygen = CharacterStatus::LOW_OXYGEN_THRESHOLD;
    scene.add_character(character).unwrap();
    let oxygen_pile = Resource {
        position: TilePosition::new(3, 0),
        stockpile: Stockpile::zeroed().with_resource(ResourceVariant::oxygen(), 9, false),
        stockpile_reliant: StockpileReliantTag,
    };
    scene.spawn_resource(oxygen_pile).unwrap();
    let mut broker: NotificationSet<HaulDescription> = NotificationSet::new(8);
    let walls = BitGrid::new(10, 10).unwrap();
    let mut brain = Brain::new();
    for _ in 0..7 {
        brain.goal_stack.push(Goal::RefillOxygen);
    }
    // A stack of refill goals already queued suppresses the interrupt...
    brain.update_goals(0, TilePosition::new(0, 0), 1, &mut scene, &mut broker, &walls);
    assert!(brain.goal_stack.len() <= 8);
    // ...but a refill-free deep stack forces the reset.
    brain.goal_stack.clear();
    for _ in 0..7 {
        brain.goal_stack.push(Goal::Work {
            haul_wait_timeout: None,
            job: JobStationVariant::energy_generator(),
        });
    }
    brain.update_goals(0, TilePosition::new(0, 0), 2, &mut scene, &mut broker, &walls);
    assert!(brain.goal_stack.is_empty());
}
