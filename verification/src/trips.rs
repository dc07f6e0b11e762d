use vstd::prelude::*;
use crate::network::RoadNetwork;
use crate::rng::choose_from;
use rand_xorshift::XorShiftRng;

verus! {

/// A point along a lane: the lane's index and a distance from its start in
/// millimeters.
#[derive(Clone, Copy, Debug, PartialEq, Eq, Structural)]
pub struct Position {
    pub lane: usize,
    pub dist: u64,
}

/// Where a driving (or biking) trip is headed: park near a building, or
/// leave the map at a border intersection via a specific lane.
#[derive(Clone, Copy, Debug, PartialEq, Eq, Structural)]
pub enum DrivingGoal {
    ParkNear(usize),
    Border(usize, usize),
}

impl DrivingGoal {
    pub open spec fn wf(self, map: RoadNetwork) -> bool {
        match self {
            DrivingGoal::ParkNear(b) => b < map.buildings@.len(),
            DrivingGoal::Border(i, l) => i < map.intersections@.len() && l < map.lanes@.len(),
        }
    }
}

/// What a sidewalk spot connects to: a building's front path or a border
/// intersection.
#[derive(Clone, Copy, Debug, PartialEq, Eq, Structural)]
pub enum SidewalkPOI {
    Building(usize),
    Border(usize),
}

/// A point on a sidewalk where a pedestrian leg starts or ends.
#[derive(Clone, Copy, Debug, PartialEq, Eq, Structural)]
pub struct SidewalkSpot {
    pub connection: SidewalkPOI,
}

impl SidewalkSpot {
    pub open spec fn wf(self, map: RoadNetwork) -> bool {
        match self.connection {
            SidewalkPOI::Building(b) => b < map.buildings@.len(),
            SidewalkPOI::Border(i) => i < map.intersections@.len(),
        }
    }
}

/// A trip's start or end, classified as a specific building or a border
/// intersection.
#[derive(Clone, Copy, Debug, PartialEq, Eq, Structural)]
pub enum TripEndpoint {
    Bldg(usize),
    Border(usize),
}

/// The closed set of abstract trip shapes a demand description may hold.
#[derive(Clone, Copy, Debug, PartialEq, Eq, Structural)]
pub enum SpawnTrip {
    /// A vehicle materializing mid-map; only for interactive or debug trips.
    VehicleAppearing { start: Position, goal: DrivingGoal, is_bike: bool },
    /// A vehicle entering the map at a border intersection. Bikes starting
    /// at a border use this; `UsingBike` implies a walk-then-bike trip.
    FromBorder { i: usize, goal: DrivingGoal, is_bike: bool },
    /// Walk to a building and drive away in a car parked there.
    UsingParkedCar(usize, DrivingGoal),
    /// Walk to a sidewalk point and ride the person's own bike.
    UsingBike(SidewalkSpot, DrivingGoal),
    JustWalking(SidewalkSpot, SidewalkSpot),
    /// Walk, ride the named bus route between two stops, walk.
    UsingTransit(SidewalkSpot, SidewalkSpot, usize, usize, usize),
}

/// A concrete, engine-consumable trip specification. Vehicles are named by
/// their index in the owning person's vehicle list.
#[derive(Clone, Copy, Debug, PartialEq, Eq, Structural)]
pub enum TripSpec {
    VehicleAppearing { start_pos: Position, goal: DrivingGoal, use_vehicle: usize, retry_if_no_room: bool },
    UsingParkedCar { start_bldg: usize, goal: DrivingGoal, car: usize },
    UsingBike { bike: usize, start: SidewalkSpot, goal: DrivingGoal },
    JustWalking { start: SidewalkSpot, goal: SidewalkSpot },
    UsingTransit { start: SidewalkSpot, goal: SidewalkSpot, route: usize, stop1: usize, stop2: usize },
}

impl SpawnTrip {
    /// Every index the trip carries lands inside the network.
    pub open spec fn wf(self, map: RoadNetwork) -> bool {
        match self {
            SpawnTrip::VehicleAppearing { start, goal, .. } => start.lane < map.lanes@.len()
                && goal.wf(map),
            SpawnTrip::FromBorder { i, goal, .. } => i < map.intersections@.len() && goal.wf(map),
            SpawnTrip::UsingParkedCar(b, goal) => b < map.buildings@.len() && goal.wf(map),
            SpawnTrip::UsingBike(spot, goal) => spot.wf(map) && goal.wf(map),
            SpawnTrip::JustWalking(s, g) => s.wf(map) && g.wf(map),
            SpawnTrip::UsingTransit(s, g, _, _, _) => s.wf(map) && g.wf(map),
        }
    }

    /// Does this trip shape use a vehicle at all?
    pub open spec fn uses_vehicle(self) -> bool {
        !(self matches SpawnTrip::JustWalking(_, _)) && !(self matches SpawnTrip::UsingTransit(
            _,
            _,
            _,
            _,
            _,
        ))
    }

    /// The endpoint where this trip begins.
    pub open spec fn spec_start(self, map: RoadNetwork) -> TripEndpoint {
        match self {
            SpawnTrip::VehicleAppearing { start, .. } => TripEndpoint::Border(
                map.lanes@[start.lane as int].src_i,
            ),
            SpawnTrip::FromBorder { i, .. } => TripEndpoint::Border(i),
            SpawnTrip::UsingParkedCar(b, _) => TripEndpoint::Bldg(b),
            SpawnTrip::UsingBike(spot, _) | SpawnTrip::JustWalking(spot, _)
                | SpawnTrip::UsingTransit(spot, _, _, _, _) => match spot.connection {
                SidewalkPOI::Building(b) => TripEndpoint::Bldg(b),
                SidewalkPOI::Border(i) => TripEndpoint::Border(i),
            },
        }
    }

    /// The endpoint where this trip ends.
    pub open spec fn spec_end(self) -> TripEndpoint {
        match self {
            SpawnTrip::VehicleAppearing { goal, .. } | SpawnTrip::FromBorder { goal, .. }
                | SpawnTrip::UsingParkedCar(_, goal) | SpawnTrip::UsingBike(_, goal) => match goal {
                DrivingGoal::ParkNear(b) => TripEndpoint::Bldg(b),
                DrivingGoal::Border(i, _) => TripEndpoint::Border(i),
            },
            SpawnTrip::JustWalking(_, spot) | SpawnTrip::UsingTransit(_, spot, _, _, _) => match spot
                .connection {
                SidewalkPOI::Building(b) => TripEndpoint::Bldg(b),
                SidewalkPOI::Border(i) => TripEndpoint::Border(i),
            },
        }
    }

    pub fn start(&self, map: &RoadNetwork) -> (r: TripEndpoint)
        requires
            self.wf(*map),
        ensures
            r == self.spec_start(*map),
    {
        match self {
            SpawnTrip::VehicleAppearing { start, .. } => TripEndpoint::Border(
                map.lanes[start.lane].src_i,
            ),
            SpawnTrip::FromBorder { i, .. } => TripEndpoint::Border(*i),
            SpawnTrip::UsingParkedCar(b, _) => TripEndpoint::Bldg(*b),
            SpawnTrip::UsingBike(spot, _) | SpawnTrip::JustWalking(spot, _)
                | SpawnTrip::UsingTransit(spot, _, _, _, _) => match spot.connection {
                SidewalkPOI::Building(b) => TripEndpoint::Bldg(b),
                SidewalkPOI::Border(i) => TripEndpoint::Border(i),
            },
        }
    }

    pub fn end(&self) -> (r: TripEndpoint)
        ensures
            r == self.spec_end(),
    {
        match self {
            SpawnTrip::VehicleAppearing { goal, .. } | SpawnTrip::FromBorder { goal, .. }
                | SpawnTrip::UsingParkedCar(_, goal) | SpawnTrip::UsingBike(_, goal) => match goal {
                DrivingGoal::ParkNear(b) => TripEndpoint::Bldg(*b),
                DrivingGoal::Border(i, _) => TripEndpoint::Border(*i),
            },
            SpawnTrip::JustWalking(_, spot) | SpawnTrip::UsingTransit(_, spot, _, _, _) => match spot
                .connection {
                SidewalkPOI::Building(b) => TripEndpoint::Bldg(b),
                SidewalkPOI::Border(i) => TripEndpoint::Border(i),
            },
        }
    }

    /// The outgoing lanes a border entry of this movement class may spawn
    /// on.
    pub open spec fn border_lanes(map: RoadNetwork, i: usize, is_bike: bool) -> Seq<usize> {
        if is_bike {
            map.intersections@[i as int].outgoing_bike_lanes@
        } else {
            map.intersections@[i as int].outgoing_car_lanes@
        }
    }

    /// What resolving a trip must hand the engine: the same shape and
    /// endpoints, the chosen vehicle index, and, for a border entry, a spawn
    /// position at the start of one compatible outgoing lane.
    pub open spec fn resolves_to(
        self,
        map: RoadNetwork,
        use_vehicle: Option<usize>,
        r: Option<TripSpec>,
    ) -> bool {
        match self {
            SpawnTrip::VehicleAppearing { start, goal, .. } => r == Some(
                TripSpec::VehicleAppearing {
                    start_pos: start,
                    goal,
                    use_vehicle: use_vehicle->Some_0,
                    retry_if_no_room: true,
                },
            ),
            SpawnTrip::FromBorder { i, goal, is_bike } => {
                &&& (r is None <==> Self::border_lanes(map, i, is_bike).len() == 0)
                &&& (r matches Some(spec) ==> spec matches TripSpec::VehicleAppearing {
                    start_pos,
                    goal: g,
                    use_vehicle: uv,
                    retry_if_no_room,
                } && Self::border_lanes(map, i, is_bike).contains(start_pos.lane)
                    && start_pos.dist == 0 && g == goal && uv == use_vehicle->Some_0
                    && retry_if_no_room)
            },
            SpawnTrip::UsingParkedCar(b, goal) => r == Some(
                TripSpec::UsingParkedCar { start_bldg: b, goal, car: use_vehicle->Some_0 },
            ),
            SpawnTrip::UsingBike(start, goal) => r == Some(
                TripSpec::UsingBike { bike: use_vehicle->Some_0, start, goal },
            ),
            SpawnTrip::JustWalking(start, goal) => r == Some(
                TripSpec::JustWalking { start, goal },
            ),
            SpawnTrip::UsingTransit(start, goal, route, stop1, stop2) => r == Some(
                TripSpec::UsingTransit { start, goal, route, stop1, stop2 },
            ),
        }
    }

    /// Turn this abstract trip plus its assigned vehicle into a concrete
    /// specification. The only map-dependent nondeterminism left is picking
    /// a compatible lane for a border entry, done uniformly at random on the
    /// forked generator handed in; if no compatible lane exists the trip
    /// resolves to nothing and the caller drops it.
    pub fn to_trip_spec(
        self,
        use_vehicle: Option<usize>,
        rng: &mut XorShiftRng,
        map: &RoadNetwork,
    ) -> (r: Option<TripSpec>)
        requires
            map.wf(),
            self.wf(*map),
            self.uses_vehicle() ==> use_vehicle is Some,
        ensures
            self.resolves_to(*map, use_vehicle, r),
    {
        match self {
            SpawnTrip::VehicleAppearing { start, goal, .. } => Some(
                TripSpec::VehicleAppearing {
                    start_pos: start,
                    goal,
                    use_vehicle: use_vehicle.unwrap(),
                    retry_if_no_room: true,
                },
            ),
            SpawnTrip::FromBorder { i, goal, is_bike } => {
                let lanes = map.get_outgoing_lanes(i, is_bike);
                match choose_from(lanes, rng) {
                    Some(l) => Some(
                        TripSpec::VehicleAppearing {
                            start_pos: Position { lane: l, dist: 0 },
                            goal,
                            use_vehicle: use_vehicle.unwrap(),
                            retry_if_no_room: true,
                        },
                    ),
                    None => None,
                }
            },
            SpawnTrip::UsingParkedCar(start_bldg, goal) => Some(
                TripSpec::UsingParkedCar { start_bldg, goal, car: use_vehicle.unwrap() },
            ),
            SpawnTrip::UsingBike(start, goal) => Some(
                TripSpec::UsingBike { bike: use_vehicle.unwrap(), start, goal },
            ),
            SpawnTrip::JustWalking(start, goal) => Some(TripSpec::JustWalking { start, goal }),
            SpawnTrip::UsingTransit(start, goal, route, stop1, stop2) => Some(
                TripSpec::UsingTransit { start, goal, route, stop1, stop2 },
            ),
        }
    }
}

} // verus!
