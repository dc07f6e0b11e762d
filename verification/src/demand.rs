use vstd::prelude::*;
use crate::trips::SpawnTrip;

verus! {

/// A person's stable identity within a scenario; dense and sequential after
/// schedule validation.
#[derive(Clone, Copy, Debug, PartialEq, Eq, Structural)]
pub struct PersonID(pub usize);

/// Names one concrete vehicle: the `idx`-th vehicle created for person
/// `owner`.
#[derive(Clone, Copy, Debug, PartialEq, Eq, Structural)]
pub struct CarID {
    pub owner: PersonID,
    pub idx: usize,
}

#[derive(Clone, Copy, Debug, PartialEq, Eq, Structural)]
pub enum VehicleType {
    Car,
    Bike,
}

/// Shortest car drawn at resolution time, in millimeters.
pub const MIN_CAR_LENGTH: u64 = 4500;

/// Upper bound (exclusive) on a drawn car length, in millimeters.
pub const MAX_CAR_LENGTH: u64 = 6500;

/// Every bike has this length, in millimeters.
pub const BIKE_LENGTH: u64 = 2000;

/// Lower bound of a bike's drawn top speed, in micrometers per second
/// (about 8 miles per hour).
pub const MIN_BIKE_SPEED: u64 = 3576320;

/// Upper bound (exclusive) of a bike's drawn top speed, in micrometers per
/// second (about 10 miles per hour).
pub const MAX_BIKE_SPEED: u64 = 4470400;

/// Lower bound of a person's drawn walking speed, in micrometers per second
/// (about 2 miles per hour).
pub const MIN_PED_SPEED: u64 = 894080;

/// Upper bound (exclusive) of a person's drawn walking speed, in micrometers
/// per second (about 3 miles per hour).
pub const MAX_PED_SPEED: u64 = 1341120;

/// A concrete vehicle to create for a person: its type, its length in
/// millimeters, and an optional top speed in micrometers per second.
#[derive(Clone, Copy, Debug, PartialEq, Eq, Structural)]
pub struct VehicleSpec {
    pub vehicle_type: VehicleType,
    pub length: u64,
    pub max_speed: Option<u64>,
}

impl VehicleSpec {
    /// What resolution promises of a drawn car: a car of bounded length with
    /// no speed cap of its own.
    pub open spec fn is_drawn_car(self) -> bool {
        &&& self.vehicle_type == VehicleType::Car
        &&& MIN_CAR_LENGTH <= self.length < MAX_CAR_LENGTH
        &&& self.max_speed is None
    }

    /// What resolution promises of a drawn bike: fixed length, bounded top
    /// speed.
    pub open spec fn is_drawn_bike(self) -> bool {
        &&& self.vehicle_type == VehicleType::Bike
        &&& self.length == BIKE_LENGTH
        &&& self.max_speed matches Some(s) && MIN_BIKE_SPEED <= s < MAX_BIKE_SPEED
    }
}

/// One abstract trip: a departure time in seconds since midnight of the
/// scenario's first day, and the trip's shape.
#[derive(Clone, Copy, Debug, PartialEq, Eq, Structural)]
pub struct IndividTrip {
    pub depart: u64,
    pub trip: SpawnTrip,
}

/// An opaque two-part label carried over from whatever produced the demand
/// description; only used for debugging.
#[derive(Clone, Copy, Debug, PartialEq, Eq, Structural)]
pub struct OrigID(pub usize, pub usize);

/// One synthetic person: identity, an opaque label for debugging, and the
/// ordered trips they plan to take.
#[derive(Clone, Debug)]
pub struct PersonSpec {
    pub id: PersonID,
    /// Just used for debugging.
    pub orig_id: OrigID,
    pub trips: Vec<IndividTrip>,
}

} // verus!
