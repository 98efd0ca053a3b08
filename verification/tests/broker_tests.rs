use colony_core::brain::HaulDescription;
use colony_core::game_object::{JobStationVariant, ResourceVariant, TilePosition};
use colony_core::notifications::NotificationSet;

fn haul(amount: u8) -> HaulDescription {
    HaulDescription {
        resource: ResourceVariant::magma(),
        amount,
        destination: (JobStationVariant::energy_generator(), TilePosition::new(3, 4)),
    }
}

#[test]
fn notify_then_remove_returns_payload_unchanged() {
    let mut broker: NotificationSet<HaulDescription> = NotificationSet::new(16);
    let posted = haul(5);
    let id = broker.notify(posted).expect("below capacity");
    assert!(broker.check(id));
    let removed = broker.remove(id).expect("the id was just posted");
    assert_eq!(removed, posted);
    assert!(!broker.check(id));
    assert_eq!(broker.len(), 0);
}

#[test]
fn notify_rejects_payload_at_capacity() {
    let mut broker: NotificationSet<u32> = NotificationSet::new(2);
    broker.notify(10).unwrap();
    broker.notify(20).unwrap();
    let rejected = broker.notify(30);
    assert_eq!(rejected, Err(30));
    assert_eq!(broker.len(), 2);
}

#[test]
fn ids_are_never_reused() {
    let mut broker: NotificationSet<u32> = NotificationSet::new(4);
    let a = broker.notify(1).unwrap();
    let b = broker.notify(2).unwrap();
    broker.remove(a);
    let c = broker.notify(3).unwrap();
    assert_ne!(c.0, a.0);
    assert_ne!(c.0, b.0);
    assert!(!broker.check(a));
    assert!(broker.check(b));
    assert!(broker.check(c));
}

#[test]
fn removal_swaps_last_entry_in() {
    let mut broker: NotificationSet<u32> = NotificationSet::new(4);
    let a = broker.notify(1).unwrap();
    let _b = broker.notify(2).unwrap();
    let _c = broker.notify(3).unwrap();
    assert_eq!(broker.remove(a), Some(1));
    assert_eq!(broker.len(), 2);
    // The last entry took the freed slot.
    let (first_id, first) = broker.entry_at(0);
    assert_eq!(*first, 3);
    assert_eq!(first_id.0, 2);
}

#[test]
fn replace_updates_payload_in_place() {
    let mut broker: NotificationSet<u32> = NotificationSet::new(4);
    let a = broker.notify(1).unwrap();
    assert!(broker.replace(a, 9));
    assert_eq!(broker.get(a), Some(&9));
    let gone = colony_core::notifications::NotificationId(999);
    assert!(!broker.replace(gone, 5));
    assert_eq!(broker.len(), 1);
}

#[test]
fn get_finds_by_id() {
    let mut broker: NotificationSet<u32> = NotificationSet::new(4);
    let a = broker.notify(11).unwrap();
    let b = broker.notify(22).unwrap();
    assert_eq!(broker.get(a), Some(&11));
    assert_eq!(broker.get(b), Some(&22));
    broker.remove(a);
    assert_eq!(broker.get(a), None);
}
