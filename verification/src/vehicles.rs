use vstd::prelude::*;
use crate::demand::{IndividTrip, PersonSpec, VehicleSpec, VehicleType};
use crate::scenario::Scenario;
use crate::trips::{DrivingGoal, SpawnTrip};
use rand_xorshift::XorShiftRng;

verus! {

/// The mathematical outcome of walking one person's trip chain: which
/// vehicles exist (by type, in creation order), which cars start parked at
/// which building, which vehicle index each trip uses, the person's single
/// lazily-created bike, and each car's current binding ("parked at building
/// b" or off-map).
pub ghost struct VehicleModel {
    pub types: Seq<VehicleType>,
    pub parked: Seq<(usize, usize)>,
    pub per_trip: Seq<Option<usize>>,
    pub bike: Option<usize>,
    pub locations: Seq<(usize, Option<usize>)>,
}

/// The first car in the state whose binding is off-map, if any.
pub open spec fn first_offmap(locs: Seq<(usize, Option<usize>)>) -> Option<usize>
    decreases locs.len(),
{
    if locs.len() == 0 {
        None
    } else if locs[0].1 is None {
        Some(locs[0].0)
    } else {
        first_offmap(locs.drop_first())
    }
}

/// The first car in the state currently bound to building `b`, if any.
pub open spec fn first_parked_at(locs: Seq<(usize, Option<usize>)>, b: usize) -> Option<usize>
    decreases locs.len(),
{
    if locs.len() == 0 {
        None
    } else if locs[0].1 == Some(b) {
        Some(locs[0].0)
    } else {
        first_parked_at(locs.drop_first(), b)
    }
}

/// The state with every binding of car `idx` removed; a car's old binding is
/// retired before its new one is recorded.
pub open spec fn without_car(
    locs: Seq<(usize, Option<usize>)>,
    idx: usize,
) -> Seq<(usize, Option<usize>)> {
    locs.filter(|e: (usize, Option<usize>)| e.0 != idx)
}

/// Where a car ends up after driving to `goal`: bound to the building it
/// parks near, or off-map past a border.
pub open spec fn goal_binding(goal: DrivingGoal) -> Option<usize> {
    match goal {
        DrivingGoal::ParkNear(b) => Some(b),
        DrivingGoal::Border(_, _) => None,
    }
}

pub open spec fn empty_model() -> VehicleModel {
    VehicleModel {
        types: Seq::empty(),
        parked: Seq::empty(),
        per_trip: Seq::empty(),
        bike: None,
        locations: Seq::empty(),
    }
}

/// A trip that rides the person's bike: create it lazily on first use, and
/// never track its location.
pub open spec fn use_bike_step(st: VehicleModel) -> VehicleModel {
    let st1 = if st.bike is None {
        VehicleModel {
            bike: Some(st.types.len() as usize),
            types: st.types.push(VehicleType::Bike),
            ..st
        }
    } else {
        st
    };
    VehicleModel { per_trip: st1.per_trip.push(st1.bike), ..st1 }
}

/// Car `idx` takes this trip: its old binding is retired and replaced by
/// where the goal leaves it.
pub open spec fn use_car_step(st: VehicleModel, idx: usize, goal: DrivingGoal) -> VehicleModel {
    VehicleModel {
        locations: without_car(st.locations, idx).push((idx, goal_binding(goal))),
        per_trip: st.per_trip.push(Some(idx)),
        ..st
    }
}

/// A car materializes mid-map or at a border: reuse the first off-map car,
/// else create a new one (which starts off-map, so it needs no initial
/// parked spot).
pub open spec fn appearing_car_step(st: VehicleModel, goal: DrivingGoal) -> VehicleModel {
    match first_offmap(st.locations) {
        Some(idx) => use_car_step(st, idx, goal),
        None => {
            let idx = st.types.len() as usize;
            use_car_step(
                VehicleModel { types: st.types.push(VehicleType::Car), ..st },
                idx,
                goal,
            )
        },
    }
}

/// A trip drives away in a car parked at `b`: reuse the car bound there,
/// else create a new one and record that it starts parked at `b`.
pub open spec fn parked_car_step(st: VehicleModel, b: usize, goal: DrivingGoal) -> VehicleModel {
    match first_parked_at(st.locations, b) {
        Some(idx) => use_car_step(st, idx, goal),
        None => {
            let idx = st.types.len() as usize;
            use_car_step(
                VehicleModel {
                    types: st.types.push(VehicleType::Car),
                    parked: st.parked.push((idx, b)),
                    ..st
                },
                idx,
                goal,
            )
        },
    }
}

/// How one trip advances the vehicle state.
pub open spec fn vehicle_step(st: VehicleModel, trip: SpawnTrip) -> VehicleModel {
    match trip {
        SpawnTrip::VehicleAppearing { goal, is_bike, .. } => if is_bike {
            use_bike_step(st)
        } else {
            appearing_car_step(st, goal)
        },
        SpawnTrip::FromBorder { goal, is_bike, .. } => if is_bike {
            use_bike_step(st)
        } else {
            appearing_car_step(st, goal)
        },
        SpawnTrip::UsingParkedCar(b, goal) => parked_car_step(st, b, goal),
        SpawnTrip::UsingBike(_, _) => use_bike_step(st),
        SpawnTrip::JustWalking(_, _) | SpawnTrip::UsingTransit(_, _, _, _, _) => VehicleModel {
            per_trip: st.per_trip.push(None),
            ..st
        },
    }
}

/// The vehicle state implied by a whole trip chain, walked in order.
pub open spec fn vehicle_model(trips: Seq<SpawnTrip>) -> VehicleModel
    decreases trips.len(),
{
    if trips.len() == 0 {
        empty_model()
    } else {
        vehicle_step(vehicle_model(trips.drop_last()), trips.last())
    }
}

/// The trip shapes of a person's trip list.
pub open spec fn spawn_trips(trips: Seq<IndividTrip>) -> Seq<SpawnTrip> {
    trips.map_values(|t: IndividTrip| t.trip)
}

/// The drawn vehicle specifications agree with the model: one per created
/// vehicle, of the type the model says, with its length and speed inside
/// the documented bounds.
pub open spec fn vehicles_match(m: VehicleModel, specs: Seq<VehicleSpec>) -> bool {
    &&& specs.len() == m.types.len()
    &&& forall|i: int|
        0 <= i < specs.len() ==> match m.types[i] {
            VehicleType::Car => (#[trigger] specs[i]).is_drawn_car(),
            VehicleType::Bike => specs[i].is_drawn_bike(),
        }
}

/// The model assigns a vehicle index to every trip shape that uses one, and
/// decides one entry per trip.
pub proof fn lemma_per_trip_some(trips: Seq<SpawnTrip>)
    ensures
        vehicle_model(trips).per_trip.len() == trips.len(),
        forall|t: int|
            0 <= t < trips.len() && trips[t].uses_vehicle() ==> (#[trigger] vehicle_model(
                trips,
            ).per_trip[t]) is Some,
    decreases trips.len(),
{
    if trips.len() > 0 {
        lemma_per_trip_some(trips.drop_last());
        let m0 = vehicle_model(trips.drop_last());
        assert forall|t: int|
            0 <= t < trips.len() && trips[t].uses_vehicle() implies (#[trigger] vehicle_model(
            trips,
        ).per_trip[t]) is Some by {
            if t < trips.len() - 1 {
                assert(trips.drop_last()[t] == trips[t]);
                assert(vehicle_model(trips).per_trip[t] == m0.per_trip[t]);
            }
        }
    }
}

/// Every building a car is recorded as initially parked at comes from a
/// `UsingParkedCar` trip, so it lies inside the network whenever the trips
/// do.
pub proof fn lemma_parked_buildings_wf(trips: Seq<SpawnTrip>, map: crate::network::RoadNetwork)
    requires
        forall|i: int| 0 <= i < trips.len() ==> (#[trigger] trips[i]).wf(map),
    ensures
        forall|k: int|
            0 <= k < vehicle_model(trips).parked.len() ==> (#[trigger] vehicle_model(
                trips,
            ).parked[k]).1 < map.buildings@.len(),
    decreases trips.len(),
{
    if trips.len() > 0 {
        assert forall|i: int| 0 <= i < trips.drop_last().len() implies (#[trigger] trips.drop_last()[i]).wf(
            map,
        ) by {
            assert(trips.drop_last()[i] == trips[i]);
        }
        lemma_parked_buildings_wf(trips.drop_last(), map);
        let m0 = vehicle_model(trips.drop_last());
        assert(trips[trips.len() - 1].wf(map));
        match trips.last() {
            SpawnTrip::UsingParkedCar(b, goal) => {
                assert(b < map.buildings@.len());
            },
            _ => {},
        }
    }
}

/// First car currently off-map, scanning in state order.
fn find_offmap(locs: &Vec<(usize, Option<usize>)>) -> (r: Option<usize>)
    ensures
        r == first_offmap(locs@),
{
    let mut i: usize = 0;
    proof {
        assert(locs@.skip(0) =~= locs@);
    }
    while i < locs.len()
        invariant
            i <= locs@.len(),
            first_offmap(locs@) == first_offmap(locs@.skip(i as int)),
        decreases locs@.len() - i,
    {
        let e = locs[i];
        proof {
            assert(locs@.skip(i as int)[0] == locs@[i as int]);
        }
        match e.1 {
            None => {
                return Some(e.0);
            },
            Some(_) => {
                proof {
                    assert(locs@.skip(i as int).drop_first() =~= locs@.skip(i as int + 1));
                }
            },
        }
        i = i + 1;
    }
    proof {
        assert(locs@.skip(i as int).len() == 0);
    }
    None
}

/// First car currently bound to building `b`, scanning in state order.
fn find_parked_at(locs: &Vec<(usize, Option<usize>)>, b: usize) -> (r: Option<usize>)
    ensures
        r == first_parked_at(locs@, b),
{
    let mut i: usize = 0;
    proof {
        assert(locs@.skip(0) =~= locs@);
    }
    while i < locs.len()
        invariant
            i <= locs@.len(),
            first_parked_at(locs@, b) == first_parked_at(locs@.skip(i as int), b),
        decreases locs@.len() - i,
    {
        let e = locs[i];
        proof {
            assert(locs@.skip(i as int)[0] == locs@[i as int]);
        }
        let hit = match e.1 {
            Some(x) => x == b,
            None => false,
        };
        if hit {
            return Some(e.0);
        }
        proof {
            assert(locs@.skip(i as int).drop_first() =~= locs@.skip(i as int + 1));
        }
        i = i + 1;
    }
    proof {
        assert(locs@.skip(i as int).len() == 0);
    }
    None
}

/// Retire every binding of car `idx`, keeping the order of the rest.
fn remove_car(locs: &mut Vec<(usize, Option<usize>)>, idx: usize)
    ensures
        final(locs)@ == without_car(old(locs)@, idx),
{
    let mut out: Vec<(usize, Option<usize>)> = Vec::new();
    let mut i: usize = 0;
    proof {
        reveal_with_fuel(Seq::filter, 2);
        assert(locs@.take(0) =~= Seq::<(usize, Option<usize>)>::empty());
    }
    while i < locs.len()
        invariant
            i <= locs@.len(),
            out@ == without_car(locs@.take(i as int), idx),
        decreases locs@.len() - i,
    {
        let e = locs[i];
        if e.0 != idx {
            out.push(e);
        }
        proof {
            reveal_with_fuel(Seq::filter, 2);
            assert(locs@.take(i as int + 1).drop_last() =~= locs@.take(i as int));
            assert(locs@.take(i as int + 1).last() == locs@[i as int]);
        }
        i = i + 1;
    }
    proof {
        assert(locs@.take(locs@.len() as int) =~= locs@);
    }
    *locs = out;
}

impl PersonSpec {
    /// Walk the trip chain once and decide: which vehicles this person owns
    /// (specifications, in creation order), which cars start parked at which
    /// building, and which vehicle index each trip uses. The greedy single
    /// pass assumes the chain is spatially consistent; it builds whatever
    /// vehicle graph the trips imply, exactly as `vehicle_model` describes.
    pub fn get_vehicles(&self, rng: &mut XorShiftRng) -> (r: (
        Vec<VehicleSpec>,
        Vec<(usize, usize)>,
        Vec<Option<usize>>,
    ))
        ensures
            vehicles_match(vehicle_model(spawn_trips(self.trips@)), r.0@),
            r.1@ == vehicle_model(spawn_trips(self.trips@)).parked,
            r.2@ == vehicle_model(spawn_trips(self.trips@)).per_trip,
    {
        let ghost all = spawn_trips(self.trips@);
        let mut vehicle_specs: Vec<VehicleSpec> = Vec::new();
        let mut cars_initially_parked_at: Vec<(usize, usize)> = Vec::new();
        let mut vehicle_foreach_trip: Vec<Option<usize>> = Vec::new();
        let mut bike_idx: Option<usize> = None;
        // For each indexed car, is it parked somewhere, or off-map?
        let mut car_locations: Vec<(usize, Option<usize>)> = Vec::new();

        proof {
            assert(all.take(0) =~= Seq::<SpawnTrip>::empty());
        }
        let mut t: usize = 0;
        while t < self.trips.len()
            invariant
                t <= self.trips@.len(),
                all == spawn_trips(self.trips@),
                vehicles_match(vehicle_model(all.take(t as int)), vehicle_specs@),
                cars_initially_parked_at@ == vehicle_model(all.take(t as int)).parked,
                vehicle_foreach_trip@ == vehicle_model(all.take(t as int)).per_trip,
                bike_idx == vehicle_model(all.take(t as int)).bike,
                car_locations@ == vehicle_model(all.take(t as int)).locations,
            decreases self.trips@.len() - t,
        {
            let ghost m0 = vehicle_model(all.take(t as int));
            let trip = self.trips[t].trip;
            proof {
                assert(all[t as int] == self.trips@[t as int].trip);
                assert(all.take(t as int + 1).drop_last() =~= all.take(t as int));
                assert(all.take(t as int + 1).last() == all[t as int]);
            }
            let use_for_trip: Option<usize> = match trip {
                SpawnTrip::VehicleAppearing { goal, is_bike, .. }
                | SpawnTrip::FromBorder { goal, is_bike, .. } => {
                    if is_bike {
                        if bike_idx.is_none() {
                            bike_idx = Some(vehicle_specs.len());
                            let spec = Scenario::rand_bike(rng);
                            vehicle_specs.push(spec);
                        }
                        bike_idx
                    } else {
                        // Any available cars off-map?
                        let idx = match find_offmap(&car_locations) {
                            Some(idx) => idx,
                            None => {
                                // Need a new car, starting off-map.
                                let idx = vehicle_specs.len();
                                let spec = Scenario::rand_car(rng);
                                vehicle_specs.push(spec);
                                idx
                            },
                        };
                        // Where does this car wind up?
                        remove_car(&mut car_locations, idx);
                        match goal {
                            DrivingGoal::ParkNear(b) => {
                                car_locations.push((idx, Some(b)));
                            },
                            DrivingGoal::Border(_, _) => {
                                car_locations.push((idx, None));
                            },
                        }
                        Some(idx)
                    }
                },
                SpawnTrip::UsingParkedCar(b, goal) => {
                    // Is there already a car parked here?
                    let idx = match find_parked_at(&car_locations, b) {
                        Some(idx) => idx,
                        None => {
                            // Need a new car, starting at this building.
                            let idx = vehicle_specs.len();
                            let spec = Scenario::rand_car(rng);
                            vehicle_specs.push(spec);
                            cars_initially_parked_at.push((idx, b));
                            idx
                        },
                    };
                    // Where does this car wind up?
                    remove_car(&mut car_locations, idx);
                    match goal {
                        DrivingGoal::ParkNear(b2) => {
                            car_locations.push((idx, Some(b2)));
                        },
                        DrivingGoal::Border(_, _) => {
                            car_locations.push((idx, None));
                        },
                    }
                    Some(idx)
                },
                SpawnTrip::UsingBike(_, _) => {
                    if bike_idx.is_none() {
                        bike_idx = Some(vehicle_specs.len());
                        let spec = Scenario::rand_bike(rng);
                        vehicle_specs.push(spec);
                    }
                    bike_idx
                },
                SpawnTrip::JustWalking(_, _) | SpawnTrip::UsingTransit(_, _, _, _, _) => None,
            };
            vehicle_foreach_trip.push(use_for_trip);
            t = t + 1;
        }
        proof {
            assert(all.take(self.trips@.len() as int) =~= all);
        }
        (vehicle_specs, cars_initially_parked_at, vehicle_foreach_trip)
    }
}

} // verus!
