//! Value types for the simulation's entities and their components: tile
//! coordinates, character status, colliders, job stations, resource kinds,
//! and the small fixed-slot stockpile inventory.

use vstd::prelude::*;
use crate::Sprite;

verus! {

/// A signed 2D integer coordinate identifying one grid cell.
#[derive(Clone, Copy, PartialEq, Eq, Structural, Debug)]
pub struct TilePosition {
    pub x: i16,
    pub y: i16,
}

impl TilePosition {
    pub fn new(x: i16, y: i16) -> (r: TilePosition)
        ensures
            r.x == x,
            r.y == y,
    {
        TilePosition { x, y }
    }

    /// Manhattan distance between two cells, as a mathematical integer.
    pub open spec fn spec_manhattan_distance(self, other: TilePosition) -> int {
        vstd::math::abs(self.x as int - other.x as int) as int + vstd::math::abs(
            self.y as int - other.y as int,
        ) as int
    }

    pub fn manhattan_distance(self, other: TilePosition) -> (r: u32)
        ensures
            r == self.spec_manhattan_distance(other),
    {
        let dx: i32 = self.x as i32 - other.x as i32;
        let dy: i32 = self.y as i32 - other.y as i32;
        let dxa: u32 = if dx < 0 { (-dx) as u32 } else { dx as u32 };
        let dya: u32 = if dy < 0 { (-dy) as u32 } else { dy as u32 };
        dxa + dya
    }
}

/// Status component of one character: vitals and personality, plus the index
/// of the brain that controls it.
#[derive(Clone, Copy, PartialEq, Eq, Structural, Debug)]
pub struct CharacterStatus {
    pub brain_index: u8,
    pub oxygen: u8,
    pub oxygen_depletion_amount: u8,
    pub morale: u8,
    pub morale_depletion_amount: u8,
    pub morale_relaxing_increment: u8,
    pub personality: Personality,
}

impl CharacterStatus {
    pub const MAX_OXYGEN: u8 = 24;

    pub const BASE_OXYGEN_DEPLETION_AMOUNT: u8 = 3;

    pub const LOW_OXYGEN_THRESHOLD: u8 = 9;

    pub const MAX_MORALE: u8 = 24;

    pub const LOW_MORALE_THRESHOLD: u8 = 9;

    pub const BASE_MORALE_DEPLETION_AMOUNT: u8 = 3;

    pub const BASE_MORALE_RELAXING_INCREMENT: u8 = 3;
}

/// Collision component: a nonzero flag marks the tile as not walkable.
#[derive(Clone, Copy, PartialEq, Eq, Structural, Debug)]
pub struct Collider(pub u8);

impl Collider {
    /// The collider value that blocks movement.
    pub fn not_walkable() -> (r: Collider)
        ensures
            r.0 == 1,
    {
        Collider(1)
    }

    /// The collider value that does not block movement.
    pub fn zeroed() -> (r: Collider)
        ensures
            r.0 == 0,
    {
        Collider(0)
    }

    pub open spec fn spec_is_not_walkable(self) -> bool {
        self.0 != 0
    }

    pub fn is_not_walkable(self) -> (r: bool)
        ensures
            r == self.spec_is_not_walkable(),
    {
        self.0 != 0
    }
}

/// Job-station component: which machine this is and how much work has been
/// invested toward the next produced batch.
#[derive(Clone, Copy, PartialEq, Eq, Structural, Debug)]
pub struct JobStationStatus {
    pub variant: JobStationVariant,
    pub work_invested: u8,
}

/// Identifies a kind of job station. The zero value marks "no station".
#[derive(Clone, Copy, PartialEq, Eq, Structural, Debug)]
pub struct JobStationVariant(pub u8);

impl JobStationVariant {
    pub fn zeroed() -> (r: JobStationVariant)
        ensures
            r == Self::spec_zeroed(),
    {
        JobStationVariant(0)
    }

    pub fn energy_generator() -> (r: JobStationVariant)
        ensures
            r == Self::spec_energy_generator(),
    {
        JobStationVariant(1)
    }

    pub fn oxygen_generator() -> (r: JobStationVariant)
        ensures
            r == Self::spec_oxygen_generator(),
    {
        JobStationVariant(2)
    }

    pub open spec fn spec_zeroed() -> JobStationVariant {
        JobStationVariant(0)
    }

    pub open spec fn spec_energy_generator() -> JobStationVariant {
        JobStationVariant(1)
    }

    pub open spec fn spec_oxygen_generator() -> JobStationVariant {
        JobStationVariant(2)
    }

    pub fn sprite(self) -> (r: Sprite)
        ensures
            self == Self::spec_energy_generator() ==> r == Sprite::EnergyGenerator,
            self == Self::spec_oxygen_generator() ==> r == Sprite::OxygenGenerator,
            self != Self::spec_energy_generator() && self != Self::spec_oxygen_generator()
                ==> r == Sprite::Placeholder,
    {
        if self.0 == 1 {
            Sprite::EnergyGenerator
        } else if self.0 == 2 {
            Sprite::OxygenGenerator
        } else {
            Sprite::Placeholder
        }
    }

    /// What this station consumes, how much work a batch takes, and what it
    /// produces.
    pub open spec fn spec_details(self) -> Option<JobStationDetails> {
        if self == Self::spec_energy_generator() {
            Some(JobStationDetails {
                resource_variant: ResourceVariant::spec_magma(),
                resource_amount: 3,
                work_amount: 10,
                output_variant: ResourceVariant::spec_energy(),
                output_amount: 1,
            })
        } else if self == Self::spec_oxygen_generator() {
            Some(JobStationDetails {
                resource_variant: ResourceVariant::spec_energy(),
                resource_amount: 1,
                work_amount: 5,
                output_variant: ResourceVariant::spec_oxygen(),
                output_amount: 15,
            })
        } else {
            None
        }
    }

    pub fn details(self) -> (r: Option<JobStationDetails>)
        ensures
            r == self.spec_details(),
    {
        if self.0 == 1 {
            Some(JobStationDetails {
                resource_variant: ResourceVariant::magma(),
                resource_amount: 3,
                work_amount: 10,
                output_variant: ResourceVariant::energy(),
                output_amount: 1,
            })
        } else if self.0 == 2 {
            Some(JobStationDetails {
                resource_variant: ResourceVariant::energy(),
                resource_amount: 1,
                work_amount: 5,
                output_variant: ResourceVariant::oxygen(),
                output_amount: 15,
            })
        } else {
            None
        }
    }
}

/// Consumption and production rates of one kind of job station.
#[derive(Clone, Copy, PartialEq, Eq, Structural, Debug)]
pub struct JobStationDetails {
    pub resource_variant: ResourceVariant,
    pub resource_amount: u8,
    pub work_amount: u8,
    pub output_variant: ResourceVariant,
    pub output_amount: u8,
}

/// Identifies a kind of resource. The zero value marks an empty slot.
#[derive(Clone, Copy, PartialEq, Eq, Structural, Debug)]
pub struct ResourceVariant(pub u8);

impl ResourceVariant {
    pub fn zeroed() -> (r: ResourceVariant)
        ensures
            r == Self::spec_zeroed(),
    {
        ResourceVariant(0)
    }

    pub fn magma() -> (r: ResourceVariant)
        ensures
            r == Self::spec_magma(),
    {
        ResourceVariant(1)
    }

    pub fn energy() -> (r: ResourceVariant)
        ensures
            r == Self::spec_energy(),
    {
        ResourceVariant(2)
    }

    pub fn oxygen() -> (r: ResourceVariant)
        ensures
            r == Self::spec_oxygen(),
    {
        ResourceVariant(3)
    }

    pub open spec fn spec_zeroed() -> ResourceVariant {
        ResourceVariant(0)
    }

    pub open spec fn spec_magma() -> ResourceVariant {
        ResourceVariant(1)
    }

    pub open spec fn spec_energy() -> ResourceVariant {
        ResourceVariant(2)
    }

    pub open spec fn spec_oxygen() -> ResourceVariant {
        ResourceVariant(3)
    }

    pub fn sprite(self) -> (r: Option<Sprite>)
        ensures
            self == Self::spec_magma() ==> r == Some(Sprite::Magma),
            self == Self::spec_energy() ==> r == Some(Sprite::Energy),
            self == Self::spec_oxygen() ==> r == Some(Sprite::Oxygen),
            self != Self::spec_magma() && self != Self::spec_energy() && self
                != Self::spec_oxygen() ==> r is None,
    {
        if self.0 == 1 {
            Some(Sprite::Magma)
        } else if self.0 == 2 {
            Some(Sprite::Energy)
        } else if self.0 == 3 {
            Some(Sprite::Oxygen)
        } else {
            None
        }
    }
}

/// Bit set of personality traits.
#[derive(Clone, Copy, PartialEq, Eq, Structural, Debug)]
pub struct Personality(pub u8);

impl Personality {
    pub fn zeroed() -> (r: Personality)
        ensures
            r.0 == 0,
    {
        Personality(0)
    }

    pub fn kaomoji() -> (r: Personality)
        ensures
            r == Self::spec_kaomoji(),
    {
        Personality(1)
    }

    pub open spec fn spec_kaomoji() -> Personality {
        Personality(1)
    }

    pub open spec fn spec_contains(self, other: Personality) -> bool {
        self.0 & other.0 == other.0
    }

    pub fn contains(self, other: Personality) -> (r: bool)
        ensures
            r == self.spec_contains(other),
    {
        (self.0 & other.0) == other.0
    }
}

/// Marks an entity that only exists to carry a stockpile and should despawn
/// once the stockpile empties.
#[derive(Clone, Copy, PartialEq, Eq, Structural, Debug)]
pub struct StockpileReliantTag;

/// A small fixed-slot inventory: up to three resource kinds, each with an
/// amount and a per-slot "reserved" flag preventing double-claiming.
#[derive(Clone, Copy, PartialEq, Eq, Debug)]
pub struct Stockpile {
    pub variant_count: u8,
    pub reserved: u8,
    pub variants: [ResourceVariant; 3],
    pub amounts: [u8; 3],
}

impl Stockpile {
    /// At most this many slots are ever in use.
    pub open spec fn wf(self) -> bool {
        self.variant_count <= 3
    }

    /// The first in-use slot holding `variant`, or -1 if there is none.
    pub open spec fn slot_of(self, variant: ResourceVariant) -> int {
        if self.variant_count > 0 && self.variants[0] == variant {
            0
        } else if self.variant_count > 1 && self.variants[1] == variant {
            1
        } else if self.variant_count > 2 && self.variants[2] == variant {
            2
        } else {
            -1
        }
    }

    /// Whether the slot at `i` is flagged as reserved.
    pub open spec fn spec_is_reserved(self, i: int) -> bool {
        self.reserved >> (i as u8) & 1 == 1
    }

    /// The first in-use, non-reserved slot holding `variant`, or -1.
    pub open spec fn non_reserved_slot_of(self, variant: ResourceVariant) -> int {
        if self.variant_count > 0 && self.variants[0] == variant && !self.spec_is_reserved(0) {
            0
        } else if self.variant_count > 1 && self.variants[1] == variant && !self.spec_is_reserved(
            1,
        ) {
            1
        } else if self.variant_count > 2 && self.variants[2] == variant && !self.spec_is_reserved(
            2,
        ) {
            2
        } else {
            -1
        }
    }

    /// An all-empty stockpile.
    pub fn zeroed() -> (r: Stockpile)
        ensures
            r.variant_count == 0,
            r.reserved == 0,
            r.amounts[0] == 0 && r.amounts[1] == 0 && r.amounts[2] == 0,
            r.variants[0] == ResourceVariant::spec_zeroed(),
            r.variants[1] == ResourceVariant::spec_zeroed(),
            r.variants[2] == ResourceVariant::spec_zeroed(),
            r.wf(),
    {
        Stockpile {
            variant_count: 0,
            reserved: 0,
            variants: [ResourceVariant(0), ResourceVariant(0), ResourceVariant(0)],
            amounts: [0, 0, 0],
        }
    }

    /// Appends a slot for `resource`, if a slot is free; otherwise returns
    /// the stockpile unchanged.
    pub fn with_resource(self, resource: ResourceVariant, amount: u8, reserved: bool) -> (r:
        Stockpile)
        requires
            self.wf(),
        ensures
            r.wf(),
            self.variant_count >= 3 ==> r == self,
            self.variant_count < 3 ==> {
                &&& r.variant_count == self.variant_count + 1
                &&& r.variants[self.variant_count as int] == resource
                &&& r.amounts[self.variant_count as int] == amount
                &&& r.reserved == self.reserved | ((if reserved {
                    1u8
                } else {
                    0u8
                }) << self.variant_count)
                &&& forall|j: int|
                    0 <= j < self.variant_count ==> r.variants[j] == self.variants[j]
                        && r.amounts[j] == self.amounts[j]
            },
    {
        let i: usize = self.variant_count as usize;
        if i >= 3 {
            self
        } else {
            let mut variants = self.variants;
            let mut amounts = self.amounts;
            variants[i] = resource;
            amounts[i] = amount;
            let flag: u8 = if reserved {
                1
            } else {
                0
            };
            Stockpile {
                variant_count: self.variant_count + 1,
                reserved: self.reserved | (flag << self.variant_count),
                variants,
                amounts,
            }
        }
    }

    /// The amount stored in the first slot holding `variant`, if any.
    pub fn get_resources(&self, variant: ResourceVariant) -> (r: Option<u8>)
        requires
            self.wf(),
        ensures
            self.slot_of(variant) < 0 <==> r is None,
            self.slot_of(variant) >= 0 ==> r == Some(self.amounts[self.slot_of(variant)]),
    {
        let count: usize = self.variant_count as usize;
        if count > 0 && self.variants[0] == variant {
            Some(self.amounts[0])
        } else if count > 1 && self.variants[1] == variant {
            Some(self.amounts[1])
        } else if count > 2 && self.variants[2] == variant {
            Some(self.amounts[2])
        } else {
            None
        }
    }

    /// True iff the first non-reserved slot holding `variant` has a positive
    /// amount.
    pub fn has_non_reserved_resources(&self, variant: ResourceVariant) -> (r: bool)
        requires
            self.wf(),
        ensures
            r == (self.non_reserved_slot_of(variant) >= 0 && self.amounts[self.non_reserved_slot_of(
                variant,
            )] > 0),
    {
        let count: usize = self.variant_count as usize;
        if count > 0 && self.variants[0] == variant && (self.reserved >> 0u8) & 1 != 1 {
            self.amounts[0] > 0
        } else if count > 1 && self.variants[1] == variant && (self.reserved >> 1u8) & 1 != 1 {
            self.amounts[1] > 0
        } else if count > 2 && self.variants[2] == variant && (self.reserved >> 2u8) & 1 != 1 {
            self.amounts[2] > 0
        } else {
            false
        }
    }

    /// Removes up to `max_amount` of `variant` from its first slot and
    /// returns how much was actually removed.
    pub fn take_resource(&mut self, variant: ResourceVariant, max_amount: u8) -> (taken: u8)
        requires
            old(self).wf(),
        ensures
            final(self).wf(),
            old(self).slot_of(variant) < 0 ==> taken == 0 && *final(self) == *old(self),
            old(self).slot_of(variant) >= 0 ==> {
                let i = old(self).slot_of(variant);
                &&& taken == vstd::math::min(max_amount as int, old(self).amounts[i] as int)
                &&& final(self).amounts[i] == old(self).amounts[i] - taken
                &&& forall|j: int| 0 <= j < 3 && j != i ==> final(self).amounts[j] == old(self).amounts[j]
                &&& final(self).variants == old(self).variants
                &&& final(self).variant_count == old(self).variant_count
                &&& final(self).reserved == old(self).reserved
            },
    {
        let count: usize = self.variant_count as usize;
        let mut slot: usize = 3;
        if count > 0 && self.variants[0] == variant {
            slot = 0;
        } else if count > 1 && self.variants[1] == variant {
            slot = 1;
        } else if count > 2 && self.variants[2] == variant {
            slot = 2;
        }
        if slot >= 3 {
            return 0;
        }
        let available: u8 = self.amounts[slot];
        let taken: u8 = if max_amount < available {
            max_amount
        } else {
            available
        };
        let mut amounts = self.amounts;
        amounts[slot] = available - taken;
        self.amounts = amounts;
        taken
    }

    /// Adds `amount` of `variant`. On success returns `Ok`; if the stockpile
    /// cannot fit everything, stores what fits and returns the overflow.
    pub fn add_resource(&mut self, variant: ResourceVariant, amount: u8) -> (r: Result<(), u8>)
        requires
            old(self).wf(),
        ensures
            final(self).wf(),
            ({
                let i = old(self).slot_of(variant);
                if i >= 0 {
                    if amount > 255 - old(self).amounts[i] {
                        &&& r == Result::<(), u8>::Err(
                            (amount - (255 - old(self).amounts[i])) as u8,
                        )
                        &&& final(self).amounts[i] == 255
                        &&& forall|j: int|
                            0 <= j < 3 && j != i ==> final(self).amounts[j] == old(self).amounts[j]
                        &&& final(self).variants == old(self).variants
                        &&& final(self).variant_count == old(self).variant_count
                        &&& final(self).reserved == old(self).reserved
                    } else {
                        &&& r == Result::<(), u8>::Ok(())
                        &&& final(self).amounts[i] == old(self).amounts[i] + amount
                        &&& forall|j: int|
                            0 <= j < 3 && j != i ==> final(self).amounts[j] == old(self).amounts[j]
                        &&& final(self).variants == old(self).variants
                        &&& final(self).variant_count == old(self).variant_count
                        &&& final(self).reserved == old(self).reserved
                    }
                } else if old(self).variant_count == 3 {
                    let e = old(self).empty_open_slot();
                    if e < 0 {
                        r == Result::<(), u8>::Err(amount) && *final(self) == *old(self)
                    } else {
                        &&& r == Result::<(), u8>::Ok(())
                        &&& final(self).variants[e] == variant
                        &&& final(self).amounts[e] == amount
                        &&& forall|j: int|
                            0 <= j < 3 && j != e ==> final(self).amounts[j] == old(self).amounts[j]
                                && final(self).variants[j] == old(self).variants[j]
                        &&& final(self).variant_count == old(self).variant_count
                        &&& final(self).reserved == old(self).reserved
                    }
                } else {
                    &&& r == Result::<(), u8>::Ok(())
                    &&& final(self).variant_count == old(self).variant_count + 1
                    &&& final(self).variants[old(self).variant_count as int] == variant
                    &&& final(self).amounts[old(self).variant_count as int] == amount
                    &&& final(self).reserved == old(self).reserved
                    &&& forall|j: int|
                        0 <= j < old(self).variant_count ==> final(self).variants[j] == old(self).variants[j] && final(self).amounts[j] == old(self).amounts[j]
                }
            }),
    {
        let count: usize = self.variant_count as usize;
        let mut slot: usize = 3;
        if count > 0 && self.variants[0] == variant {
            slot = 0;
        } else if count > 1 && self.variants[1] == variant {
            slot = 1;
        } else if count > 2 && self.variants[2] == variant {
            slot = 2;
        }
        if slot < 3 {
            let existing: u8 = self.amounts[slot];
            let capacity_left: u8 = 255 - existing;
            let mut amounts = self.amounts;
            if amount > capacity_left {
                amounts[slot] = 255;
                self.amounts = amounts;
                return Err(amount - capacity_left);
            }
            amounts[slot] = existing + amount;
            self.amounts = amounts;
            return Ok(());
        }
        if count == 3 {
            let mut empty_slot: usize = 3;
            if (self.reserved >> 0u8) & 1 != 1 && self.amounts[0] == 0 {
                empty_slot = 0;
            } else if (self.reserved >> 1u8) & 1 != 1 && self.amounts[1] == 0 {
                empty_slot = 1;
            } else if (self.reserved >> 2u8) & 1 != 1 && self.amounts[2] == 0 {
                empty_slot = 2;
            }
            if empty_slot >= 3 {
                return Err(amount);
            }
            let mut variants = self.variants;
            let mut amounts = self.amounts;
            variants[empty_slot] = variant;
            amounts[empty_slot] = amount;
            self.variants = variants;
            self.amounts = amounts;
            return Ok(());
        }
        let ghost reserved_before: u8 = self.reserved;
        *self = self.with_resource(variant, amount, false);
        proof {
            let c: u8 = old(self).variant_count;
            assert(reserved_before | (0u8 << c) == reserved_before) by (bit_vector);
        }
        Ok(())
    }

    /// The first non-reserved slot with a zero amount, or -1; used when all
    /// three slots already name a variant.
    pub open spec fn empty_open_slot(self) -> int {
        if !self.spec_is_reserved(0) && self.amounts[0] == 0 {
            0
        } else if !self.spec_is_reserved(1) && self.amounts[1] == 0 {
            1
        } else if !self.spec_is_reserved(2) && self.amounts[2] == 0 {
            2
        } else {
            -1
        }
    }

    /// Sets or clears the reserved flag on every in-use slot holding
    /// `variant`.
    pub fn mark_reserved(&mut self, variant: ResourceVariant, reserved: bool)
        requires
            old(self).wf(),
        ensures
            final(self).wf(),
            final(self).variants == old(self).variants,
            final(self).amounts == old(self).amounts,
            final(self).variant_count == old(self).variant_count,
            forall|i: int|
                0 <= i < final(self).variant_count && final(self).variants[i] == variant ==> final(self).spec_is_reserved(
                    i,
                ) == reserved,
            forall|i: int|
                0 <= i < 3 && !(0 <= i < final(self).variant_count && final(self).variants[i] == variant)
                    ==> final(self).spec_is_reserved(i) == old(self).spec_is_reserved(i),
    {
        let count: usize = self.variant_count as usize;
        let mut i: usize = 0;
        while i < count
            invariant
                count == self.variant_count,
                self.variant_count <= 3,
                i <= count,
                self.variants == old(self).variants,
                self.amounts == old(self).amounts,
                forall|j: int|
                    0 <= j < i && self.variants[j] == variant ==> self.spec_is_reserved(j)
                        == reserved,
                forall|j: int|
                    0 <= j < 3 && !(0 <= j < i && self.variants[j] == variant)
                        ==> self.spec_is_reserved(j) == old(self).spec_is_reserved(j),
            decreases count - i,
        {
            let ghost prev: Stockpile = *self;
            if self.variants[i] == variant {
                let bit: u8 = 1u8 << (i as u8);
                let old_reserved: u8 = self.reserved;
                if reserved {
                    self.reserved = self.reserved | bit;
                } else {
                    self.reserved = self.reserved & !bit;
                }
                proof {
                    lemma_flag_update(old_reserved, i as u8, reserved, self.reserved);
                    assert forall|j: int|
                        0 <= j <= i as int && self.variants[j]
                            == variant implies self.spec_is_reserved(j) == reserved by {
                        if j < i as int {
                            assert(prev.spec_is_reserved(j) == reserved);
                            assert(self.spec_is_reserved(j) == prev.spec_is_reserved(j));
                        } else {
                            assert(self.spec_is_reserved(i as int) == reserved);
                        }
                    }
                    assert forall|j: int|
                        0 <= j < 3 && !(0 <= j <= i as int && self.variants[j]
                            == variant) implies self.spec_is_reserved(j) == old(self).spec_is_reserved(j) by {
                        assert(self.spec_is_reserved(j) == prev.spec_is_reserved(j));
                        assert(prev.spec_is_reserved(j) == old(self).spec_is_reserved(j));
                    }
                }
            }
            i = i + 1;
        }
    }

    /// Appends `amount` to the first slot holding `variant`, or opens a new
    /// slot if none does and one is free; silently drops the amount when all
    /// slots are taken by other variants.
    pub fn insert_resource(&mut self, variant: ResourceVariant, amount: u8)
        requires
            old(self).wf(),
            old(self).slot_of(variant) >= 0 ==> old(self).amounts[old(self).slot_of(variant)]
                + amount <= 255,
        ensures
            final(self).wf(),
            ({
                let i = old(self).slot_of(variant);
                if i >= 0 {
                    &&& final(self).amounts[i] == old(self).amounts[i] + amount
                    &&& forall|j: int|
                        0 <= j < 3 && j != i ==> final(self).amounts[j] == old(self).amounts[j]
                    &&& final(self).variants == old(self).variants
                    &&& final(self).variant_count == old(self).variant_count
                    &&& final(self).reserved == old(self).reserved
                } else if old(self).variant_count < 3 {
                    &&& final(self).variant_count == old(self).variant_count + 1
                    &&& final(self).variants[old(self).variant_count as int] == variant
                    &&& final(self).amounts[old(self).variant_count as int] == amount
                    &&& final(self).reserved == old(self).reserved
                    &&& forall|j: int|
                        0 <= j < old(self).variant_count ==> final(self).variants[j] == old(self).variants[j] && final(self).amounts[j] == old(self).amounts[j]
                } else {
                    *final(self) == *old(self)
                }
            }),
    {
        let count: usize = self.variant_count as usize;
        let mut slot: usize = 3;
        if count > 0 && self.variants[0] == variant {
            slot = 0;
        } else if count > 1 && self.variants[1] == variant {
            slot = 1;
        } else if count > 2 && self.variants[2] == variant {
            slot = 2;
        }
        if slot < 3 {
            let mut amounts = self.amounts;
            amounts[slot] = amounts[slot] + amount;
            self.amounts = amounts;
            return ;
        }
        if count < 3 {
            let mut variants = self.variants;
            let mut amounts = self.amounts;
            variants[count] = variant;
            amounts[count] = amount;
            self.variants = variants;
            self.amounts = amounts;
            self.variant_count = self.variant_count + 1;
        }
    }

    /// True iff every in-use slot holds a zero amount.
    pub fn is_empty(self) -> (r: bool)
        requires
            self.wf(),
        ensures
            r == forall|i: int| 0 <= i < self.variant_count ==> self.amounts[i] == 0,
    {
        let count: usize = self.variant_count as usize;
        let mut i: usize = 0;
        while i < count
            invariant
                count == self.variant_count,
                self.variant_count <= 3,
                i <= count,
                forall|j: int| 0 <= j < i ==> self.amounts[j] == 0,
            decreases count - i,
        {
            if self.amounts[i] > 0 {
                return false;
            }
            i = i + 1;
        }
        true
    }
}

/// Setting or clearing one of the three low flag bits leaves the other flag
/// bits unchanged.
proof fn lemma_flag_update(flags: u8, k: u8, set: bool, updated: u8)
    requires
        k < 3,
        updated == if set {
            flags | (1u8 << k)
        } else {
            flags & !(1u8 << k)
        },
    ensures
        ((updated >> k) & 1 == 1) == set,
        k != 0 ==> (updated >> 0u8) & 1 == (flags >> 0u8) & 1,
        k != 1 ==> (updated >> 1u8) & 1 == (flags >> 1u8) & 1,
        k != 2 ==> (updated >> 2u8) & 1 == (flags >> 2u8) & 1,
{
    if set {
        assert(((flags | (1u8 << k)) >> k) & 1 == 1 && (k != 0 ==> ((flags | (1u8 << k)) >> 0u8)
            & 1 == (flags >> 0u8) & 1) && (k != 1 ==> ((flags | (1u8 << k)) >> 1u8) & 1 == (flags
            >> 1u8) & 1) && (k != 2 ==> ((flags | (1u8 << k)) >> 2u8) & 1 == (flags >> 2u8) & 1))
            by (bit_vector)
            requires
                k < 3,
        ;
    } else {
        assert(((flags & !(1u8 << k)) >> k) & 1 == 0 && (k != 0 ==> ((flags & !(1u8 << k))
            >> 0u8) & 1 == (flags >> 0u8) & 1) && (k != 1 ==> ((flags & !(1u8 << k)) >> 1u8) & 1
            == (flags >> 1u8) & 1) && (k != 2 ==> ((flags & !(1u8 << k)) >> 2u8) & 1 == (flags
            >> 2u8) & 1)) by (bit_vector)
            requires
                k < 3,
        ;
    }
}

/// A character entity: the components a colonist carries.
#[derive(Clone, Copy, PartialEq, Eq, Debug)]
pub struct Character {
    pub status: CharacterStatus,
    pub position: TilePosition,
    pub held: Stockpile,
    pub collider: Collider,
}

/// A loose resource pile entity.
#[derive(Clone, Copy, PartialEq, Eq, Debug)]
pub struct Resource {
    pub position: TilePosition,
    pub stockpile: Stockpile,
    pub stockpile_reliant: StockpileReliantTag,
}

/// A job-station entity: a machine characters operate and haul to.
#[derive(Clone, Copy, PartialEq, Eq, Debug)]
pub struct JobStation {
    pub position: TilePosition,
    pub stockpile: Stockpile,
    pub status: JobStationStatus,
    pub collider: Collider,
}

} // verus!
