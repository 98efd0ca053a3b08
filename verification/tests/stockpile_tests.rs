use colony_core::brain::Occupation;
use colony_core::game_object::{
    Collider, JobStationVariant, Personality, ResourceVariant, Stockpile,
};
use colony_core::Sprite;

#[test]
fn with_resource_fills_slots_in_order() {
    let pile = Stockpile::zeroed()
        .with_resource(ResourceVariant::magma(), 3, false)
        .with_resource(ResourceVariant::energy(), 1, true);
    assert_eq!(pile.get_resources(ResourceVariant::magma()), Some(3));
    assert_eq!(pile.get_resources(ResourceVariant::energy()), Some(1));
    assert_eq!(pile.get_resources(ResourceVariant::oxygen()), None);
    assert!(pile.has_non_reserved_resources(ResourceVariant::magma()));
    assert!(!pile.has_non_reserved_resources(ResourceVariant::energy()));
}

#[test]
fn with_resource_ignores_a_fourth_kind() {
    let pile = Stockpile::zeroed()
        .with_resource(ResourceVariant::magma(), 1, false)
        .with_resource(ResourceVariant::energy(), 2, false)
        .with_resource(ResourceVariant::oxygen(), 3, false)
        .with_resource(ResourceVariant(9), 4, false);
    assert_eq!(pile.get_resources(ResourceVariant(9)), None);
    assert_eq!(pile.get_resources(ResourceVariant::oxygen()), Some(3));
}

#[test]
fn add_resource_reports_overflow() {
    let mut pile = Stockpile::zeroed().with_resource(ResourceVariant::magma(), 250, false);
    assert_eq!(pile.add_resource(ResourceVariant::magma(), 3), Ok(()));
    assert_eq!(pile.get_resources(ResourceVariant::magma()), Some(253));
    assert_eq!(pile.add_resource(ResourceVariant::magma(), 10), Err(8));
    assert_eq!(pile.get_resources(ResourceVariant::magma()), Some(255));
}

#[test]
fn add_resource_reuses_an_emptied_slot() {
    let mut pile = Stockpile::zeroed()
        .with_resource(ResourceVariant::magma(), 0, false)
        .with_resource(ResourceVariant::energy(), 2, false)
        .with_resource(ResourceVariant::oxygen(), 3, false);
    assert_eq!(pile.add_resource(ResourceVariant(7), 5), Ok(()));
    assert_eq!(pile.get_resources(ResourceVariant(7)), Some(5));
    // A reserved empty slot is not taken over.
    let mut reserved_pile = Stockpile::zeroed()
        .with_resource(ResourceVariant::magma(), 0, true)
        .with_resource(ResourceVariant::energy(), 2, true)
        .with_resource(ResourceVariant::oxygen(), 3, true);
    assert_eq!(reserved_pile.add_resource(ResourceVariant(7), 5), Err(5));
}

#[test]
fn take_resource_is_bounded() {
    let mut pile = Stockpile::zeroed().with_resource(ResourceVariant::energy(), 4, false);
    assert_eq!(pile.take_resource(ResourceVariant::energy(), 3), 3);
    assert_eq!(pile.take_resource(ResourceVariant::energy(), 3), 1);
    assert_eq!(pile.take_resource(ResourceVariant::energy(), 3), 0);
    assert_eq!(pile.take_resource(ResourceVariant::magma(), 3), 0);
}

#[test]
fn mark_reserved_toggles_flags() {
    let mut pile = Stockpile::zeroed()
        .with_resource(ResourceVariant::magma(), 2, false)
        .with_resource(ResourceVariant::energy(), 2, false);
    pile.mark_reserved(ResourceVariant::magma(), true);
    assert!(!pile.has_non_reserved_resources(ResourceVariant::magma()));
    assert!(pile.has_non_reserved_resources(ResourceVariant::energy()));
    pile.mark_reserved(ResourceVariant::magma(), false);
    assert!(pile.has_non_reserved_resources(ResourceVariant::magma()));
}

#[test]
fn insert_resource_appends_or_accumulates() {
    let mut pile = Stockpile::zeroed();
    pile.insert_resource(ResourceVariant::oxygen(), 10);
    pile.insert_resource(ResourceVariant::oxygen(), 5);
    assert_eq!(pile.get_resources(ResourceVariant::oxygen()), Some(15));
}

#[test]
fn is_empty_looks_at_amounts() {
    let empty = Stockpile::zeroed();
    assert!(empty.is_empty());
    let zeroed_slot = Stockpile::zeroed().with_resource(ResourceVariant::magma(), 0, false);
    assert!(zeroed_slot.is_empty());
    let full = Stockpile::zeroed().with_resource(ResourceVariant::magma(), 1, false);
    assert!(!full.is_empty());
}

#[test]
fn job_station_details_are_fixed() {
    let energy = JobStationVariant::energy_generator().details().unwrap();
    assert_eq!(energy.resource_variant, ResourceVariant::magma());
    assert_eq!(energy.resource_amount, 3);
    assert_eq!(energy.work_amount, 10);
    assert_eq!(energy.output_variant, ResourceVariant::energy());
    assert_eq!(energy.output_amount, 1);

    let oxygen = JobStationVariant::oxygen_generator().details().unwrap();
    assert_eq!(oxygen.resource_variant, ResourceVariant::energy());
    assert_eq!(oxygen.resource_amount, 1);
    assert_eq!(oxygen.work_amount, 5);
    assert_eq!(oxygen.output_variant, ResourceVariant::oxygen());
    assert_eq!(oxygen.output_amount, 15);

    assert!(JobStationVariant::zeroed().details().is_none());
}

#[test]
fn occupation_rotation_cycles() {
    let mut occupation = Occupation::Idle;
    for _ in 0..4 {
        occupation = occupation.next();
    }
    assert_eq!(occupation, Occupation::Idle);
    assert_eq!(Occupation::Idle.next(), Occupation::Hauler);
    assert_eq!(Occupation::Hauler.previous(), Occupation::Idle);
    for occupation in [
        Occupation::Idle,
        Occupation::Hauler,
        Occupation::Operator(JobStationVariant::energy_generator()),
        Occupation::Operator(JobStationVariant::oxygen_generator()),
    ] {
        assert_eq!(occupation.next().previous(), occupation);
    }
}

#[test]
fn sprites_name_the_right_assets() {
    assert_eq!(JobStationVariant::energy_generator().sprite(), Sprite::EnergyGenerator);
    assert_eq!(JobStationVariant::oxygen_generator().sprite(), Sprite::OxygenGenerator);
    assert_eq!(JobStationVariant::zeroed().sprite(), Sprite::Placeholder);
    assert_eq!(ResourceVariant::magma().sprite(), Some(Sprite::Magma));
    assert_eq!(ResourceVariant::energy().sprite(), Some(Sprite::Energy));
    assert_eq!(ResourceVariant::oxygen().sprite(), Some(Sprite::Oxygen));
    assert_eq!(ResourceVariant::zeroed().sprite(), None);
    assert_eq!(
        Occupation::Hauler.sprite(Personality::zeroed()),
        Some(Sprite::OccupationHauler)
    );
}

#[test]
fn collider_flags_walkability() {
    assert!(Collider::not_walkable().is_not_walkable());
    assert!(!Collider::zeroed().is_not_walkable());
    assert!(Personality::kaomoji().contains(Personality::kaomoji()));
    assert!(!Personality::zeroed().contains(Personality::kaomoji()));
}
