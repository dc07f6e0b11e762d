use vstd::prelude::*;
use vstd::string::StringExecFns;
use crate::counter::Counter;
use crate::demand::{
    CarID, PersonID, PersonSpec, VehicleSpec, VehicleType, MIN_CAR_LENGTH, MAX_CAR_LENGTH,
    BIKE_LENGTH, MIN_BIKE_SPEED, MAX_BIKE_SPEED, MIN_PED_SPEED, MAX_PED_SPEED,
};
use crate::network::RoadNetwork;
use crate::parking::{assignment_ok, seed_parked_cars, ParkingSpot};
use crate::rng::{fork_rng, gen_range_u64, xorshift_from_seed};
use crate::trips::TripSpec;
use crate::vehicles::{
    lemma_parked_buildings_wf, lemma_per_trip_some, spawn_trips, vehicle_model, vehicles_match,
};
use rand_xorshift::XorShiftRng;

verus! {

/// How many cars one trip chain leaves initially parked at building `b`.
pub open spec fn count_parked_at(parked: Seq<(usize, usize)>, b: usize) -> int {
    parked.filter(|e: (usize, usize)| e.1 == b).len() as int
}

/// How many cars the first people of a scenario leave initially parked at
/// building `b`.
pub open spec fn parked_count_upto(people: Seq<PersonSpec>, b: usize) -> int
    decreases people.len(),
{
    if people.len() == 0 {
        0
    } else {
        parked_count_upto(people.drop_last(), b) + count_parked_at(
            vehicle_model(spawn_trips(people.last().trips@)).parked,
            b,
        )
    }
}

/// A filtered prefix never counts more than the whole.
proof fn lemma_count_parked_prefix(s: Seq<(usize, usize)>, j: int, b: usize)
    requires
        0 <= j <= s.len(),
    ensures
        count_parked_at(s.take(j), b) <= count_parked_at(s, b),
{
    let pred = |e: (usize, usize)| e.1 == b;
    assert(s =~= s.take(j) + s.skip(j));
    Seq::filter_distributes_over_add(s.take(j), s.skip(j), pred);
}

/// Earlier people only ever add to a building's count.
proof fn lemma_parked_count_mono(people: Seq<PersonSpec>, p: int, b: usize)
    requires
        0 <= p <= people.len(),
    ensures
        parked_count_upto(people.take(p), b) <= parked_count_upto(people, b),
    decreases people.len() - p,
{
    if p == people.len() {
        assert(people.take(p) =~= people);
    } else {
        assert(people.take(p + 1).drop_last() =~= people.take(p));
        assert(people.take(p + 1).last() == people[p]);
        lemma_parked_count_mono(people, p + 1, b);
    }
}

/// How to start a simulation: a named demand description bound to a named
/// map, with the people who will travel and an optional filter on which bus
/// routes to seed (`None` means seed them all).
#[derive(Clone, Debug)]
pub struct Scenario {
    pub scenario_name: String,
    pub map_name: String,
    pub people: Vec<PersonSpec>,
    /// None means seed all bus routes. Otherwise a route is seeded exactly
    /// when its name is listed here.
    pub only_seed_buses: Option<Vec<String>>,
}

impl Scenario {
    /// A scenario with no people, bound to the given map, that seeds no bus
    /// routes.
    pub fn empty(map: &RoadNetwork, name: &str) -> (s: Scenario)
        ensures
            s.scenario_name@ == name@,
            s.map_name@ == map.name@,
            s.people@.len() == 0,
            s.only_seed_buses matches Some(v) && v@.len() == 0,
    {
        Scenario {
            scenario_name: String::from_str(name),
            map_name: map.get_name().clone(),
            people: Vec::new(),
            only_seed_buses: Some(Vec::new()),
        }
    }

    /// Draw a car to create: uniform bounded length, no speed cap.
    pub fn rand_car(rng: &mut XorShiftRng) -> (v: VehicleSpec)
        ensures
            v.is_drawn_car(),
    {
        let length = Scenario::rand_dist(rng, MIN_CAR_LENGTH, MAX_CAR_LENGTH);
        VehicleSpec { vehicle_type: VehicleType::Car, length, max_speed: None }
    }

    /// Draw a bike to create: fixed length, uniform bounded top speed.
    pub fn rand_bike(rng: &mut XorShiftRng) -> (v: VehicleSpec)
        ensures
            v.is_drawn_bike(),
    {
        let max_speed = Scenario::rand_speed(rng, MIN_BIKE_SPEED, MAX_BIKE_SPEED);
        VehicleSpec {
            vehicle_type: VehicleType::Bike,
            length: BIKE_LENGTH,
            max_speed: Some(max_speed),
        }
    }

    /// Uniform draw of a distance, in millimeters, from `[low, high)`.
    pub fn rand_dist(rng: &mut XorShiftRng, low: u64, high: u64) -> (r: u64)
        requires
            low < high,
        ensures
            low <= r < high,
    {
        gen_range_u64(rng, low, high)
    }

    /// Uniform draw of a speed, in micrometers per second, from `[low, high)`.
    fn rand_speed(rng: &mut XorShiftRng, low: u64, high: u64) -> (r: u64)
        requires
            low < high,
        ensures
            low <= r < high,
    {
        gen_range_u64(rng, low, high)
    }

    /// Draw a person's walking speed.
    pub fn rand_ped_speed(rng: &mut XorShiftRng) -> (r: u64)
        ensures
            MIN_PED_SPEED <= r < MAX_PED_SPEED,
    {
        Scenario::rand_speed(rng, MIN_PED_SPEED, MAX_PED_SPEED)
    }

    /// How many cars this scenario leaves initially parked at each
    /// building. The generator handed to the resolver is a dummy: only the
    /// drawn vehicle specifications depend on it, and they are discarded
    /// here.
    pub fn count_parked_cars_per_bldg(&self) -> (c: Counter)
        requires
            forall|bb: usize| parked_count_upto(self.people@, bb) <= usize::MAX,
        ensures
            c.wf(),
            forall|bb: usize| c.spec_get(bb) == parked_count_upto(self.people@, bb),
    {
        let mut per_bldg = Counter::new();
        let mut rng = xorshift_from_seed(0);
        proof {
            assert(self.people@.take(0) =~= Seq::<PersonSpec>::empty());
        }
        let mut p: usize = 0;
        while p < self.people.len()
            invariant
                forall|bb: usize| parked_count_upto(self.people@, bb) <= usize::MAX,
                p <= self.people@.len(),
                per_bldg.wf(),
                forall|bb: usize|
                    per_bldg.spec_get(bb) == parked_count_upto(
                        self.people@.take(p as int),
                        bb,
                    ),
            decreases self.people@.len() - p,
        {
            let person = &self.people[p];
            let r = person.get_vehicles(&mut rng);
            let parked = r.1;
            proof {
                assert(self.people@.take(p as int + 1).drop_last() =~= self.people@.take(
                    p as int,
                ));
                assert(self.people@.take(p as int + 1).last() == self.people@[p as int]);
                assert(parked@.take(0) =~= Seq::<(usize, usize)>::empty());
                reveal_with_fuel(Seq::filter, 2);
            }
            let ghost model_parked = vehicle_model(spawn_trips(self.people@[p as int].trips@)).parked;
            let mut j: usize = 0;
            while j < parked.len()
                invariant
                    forall|bb: usize| parked_count_upto(self.people@, bb) <= usize::MAX,
                    p < self.people@.len(),
                    j <= parked@.len(),
                    parked@ == model_parked,
                    model_parked == vehicle_model(
                        spawn_trips(self.people@[p as int].trips@),
                    ).parked,
                    per_bldg.wf(),
                    forall|bb: usize|
                        per_bldg.spec_get(bb) == parked_count_upto(self.people@.take(p as int), bb)
                            + count_parked_at(model_parked.take(j as int), bb),
                decreases parked@.len() - j,
            {
                let b = parked[j].1;
                proof {
                    reveal_with_fuel(Seq::filter, 2);
                    assert(model_parked.take(j as int + 1).drop_last() =~= model_parked.take(
                        j as int,
                    ));
                    assert(model_parked.take(j as int + 1).last() == model_parked[j as int]);
                    assert(count_parked_at(model_parked.take(j as int + 1), b) == count_parked_at(
                        model_parked.take(j as int),
                        b,
                    ) + 1);
                    lemma_count_parked_prefix(model_parked, j as int + 1, b);
                    assert(self.people@.take(p as int + 1).drop_last() =~= self.people@.take(
                        p as int,
                    ));
                    assert(self.people@.take(p as int + 1).last() == self.people@[p as int]);
                    assert(parked_count_upto(self.people@.take(p as int + 1), b)
                        == parked_count_upto(self.people@.take(p as int), b) + count_parked_at(
                        model_parked,
                        b,
                    ));
                    lemma_parked_count_mono(self.people@, p as int + 1, b);
                    assert(per_bldg.spec_get(b) < usize::MAX);
                }
                per_bldg.inc(b);
                proof {
                    reveal_with_fuel(Seq::filter, 2);
                    assert forall|bb: usize|
                        per_bldg.spec_get(bb) == parked_count_upto(self.people@.take(p as int), bb)
                            + count_parked_at(model_parked.take(j as int + 1), bb) by {
                        assert(model_parked.take(j as int + 1).drop_last() =~= model_parked.take(
                            j as int,
                        ));
                        assert(model_parked.take(j as int + 1).last() == model_parked[j as int]);
                    }
                }
                j = j + 1;
            }
            proof {
                assert(model_parked.take(model_parked.len() as int) =~= model_parked);
                assert forall|bb: usize|
                    per_bldg.spec_get(bb) == parked_count_upto(
                        self.people@.take(p as int + 1),
                        bb,
                    ) by {
                    assert(self.people@.take(p as int + 1).drop_last() =~= self.people@.take(
                        p as int,
                    ));
                    assert(self.people@.take(p as int + 1).last() == self.people@[p as int]);
                }
            }
            p = p + 1;
        }
        proof {
            assert(self.people@.take(self.people@.len() as int) =~= self.people@);
        }
        per_bldg
    }

    /// Resolve the whole scenario into an engine-ready plan: per person,
    /// their vehicles, walking speed and one resolved trip per abstract
    /// trip (dropped trips stay visible as `None`); plus which bus routes
    /// to seed, and a concrete parking spot for every car that starts
    /// parked. The base generator advances by an edit-independent number of
    /// draws per person and trip; every map-dependent decision runs on a
    /// fork.
    pub fn instantiate(
        &self,
        map: &RoadNetwork,
        free_spots: Vec<ParkingSpot>,
        rng: &mut XorShiftRng,
    ) -> (out: Instantiation)
        requires
            map.wf(),
            self.wf(*map),
            forall|j: int| 0 <= j < free_spots@.len() ==> (#[trigger] free_spots@[j]).wf(*map),
            free_spots@.no_duplicates(),
        ensures
            out.scenario_name@ == self.scenario_name@,
            routes_ok(self.only_seed_buses, map.bus_routes@, out.routes_to_seed@),
            out.people@.len() == self.people@.len(),
            forall|p: int|
                0 <= p < self.people@.len() ==> plan_ok(
                    #[trigger] out.people@[p],
                    self.people@[p],
                    *map,
                ),
            out.parked_cars@.len() <= all_parked_pairs(self.people@).len(),
            forall|k: int|
                0 <= k < out.parked_cars@.len() ==> free_spots@.contains(
                    (#[trigger] out.parked_cars@[k]).1,
                ) && out.parked_cars@[k].1.wf(*map),
            forall|k: int|
                0 <= k < out.parked_cars@.len() ==> assignment_ok(
                    #[trigger] out.parked_cars@[k],
                    all_parked_pairs(self.people@),
                    *map,
                ),
            crate::parking::assigned_spots(out.parked_cars@).no_duplicates(),
            exists|order: Seq<(CarID, usize)>|
                order.to_multiset() == all_parked_pairs(self.people@).to_multiset() && #[trigger]
                crate::parking::allocation_follows(order, out.parked_cars@, free_spots@, *map),
            (forall|j: int|
                0 <= j < all_parked_pairs(self.people@).len()
                    ==> crate::parking::free_reachable_count(
                    *map,
                    map.buildings@[(#[trigger] all_parked_pairs(self.people@)[j]).1 as int].road,
                    free_spots@,
                ) >= all_parked_pairs(self.people@).len()) ==> out.parked_cars@.len()
                == all_parked_pairs(self.people@).len(),
    {
        let routes_to_seed = self.routes_to_seed(map);
        let mut people_plans: Vec<PersonPlan> = Vec::new();
        let mut parked_batch: Vec<(CarID, usize)> = Vec::new();
        proof {
            assert(self.people@.take(0) =~= Seq::<PersonSpec>::empty());
        }
        let mut p: usize = 0;
        while p < self.people.len()
            invariant
                map.wf(),
                self.wf(*map),
                p <= self.people@.len(),
                people_plans@.len() == p,
                forall|q: int|
                    0 <= q < p ==> plan_ok(#[trigger] people_plans@[q], self.people@[q], *map),
                parked_batch@ == all_parked_pairs(self.people@.take(p as int)),
                forall|j: int|
                    0 <= j < parked_batch@.len() ==> (#[trigger] parked_batch@[j]).1
                        < map.buildings@.len(),
            decreases self.people@.len() - p,
        {
            let person = &self.people[p];
            let r = person.get_vehicles(rng);
            let vehicle_specs = r.0;
            let cars_initially_parked_at = r.1;
            let vehicle_foreach_trip = r.2;
            let ped_speed = Scenario::rand_ped_speed(rng);
            let ghost model = vehicle_model(spawn_trips(person.trips@));
            proof {
                assert(person.trips@ == self.people@[p as int].trips@);
                assert forall|i: int| 0 <= i < spawn_trips(person.trips@).len() implies (#[trigger]
                spawn_trips(person.trips@)[i]).wf(*map) by {
                    assert(spawn_trips(person.trips@)[i] == self.people@[p as int].trips@[i].trip);
                }
                lemma_parked_buildings_wf(spawn_trips(person.trips@), *map);
                lemma_per_trip_some(spawn_trips(person.trips@));
                assert(cars_initially_parked_at@.take(0) =~= Seq::<(usize, usize)>::empty());
                assert(person_parked_pairs(self.people@[p as int]).take(0) =~= Seq::<
                    (CarID, usize),
                >::empty());
            }
            let mut j: usize = 0;
            while j < cars_initially_parked_at.len()
                invariant
                    map.wf(),
                    p < self.people@.len(),
                    j <= cars_initially_parked_at@.len(),
                    cars_initially_parked_at@ == vehicle_model(
                        spawn_trips(self.people@[p as int].trips@),
                    ).parked,
                    forall|k: int|
                        0 <= k < cars_initially_parked_at@.len() ==> (#[trigger]
                        cars_initially_parked_at@[k]).1 < map.buildings@.len(),
                    parked_batch@ == all_parked_pairs(self.people@.take(p as int))
                        + person_parked_pairs(self.people@[p as int]).take(j as int),
                    forall|jj: int|
                        0 <= jj < parked_batch@.len() ==> (#[trigger] parked_batch@[jj]).1
                            < map.buildings@.len(),
                decreases cars_initially_parked_at@.len() - j,
            {
                let e = cars_initially_parked_at[j];
                let owner = self.people[p].id;
                parked_batch.push((CarID { owner, idx: e.0 }, e.1));
                proof {
                    let pairs = person_parked_pairs(self.people@[p as int]);
                    assert(pairs.take(j as int + 1) =~= pairs.take(j as int).push(
                        pairs[j as int],
                    ));
                    assert(pairs[j as int] == (
                        CarID { owner: self.people@[p as int].id, idx: e.0 },
                        e.1,
                    ));
                    assert(parked_batch@ =~= all_parked_pairs(self.people@.take(p as int))
                        + pairs.take(j as int + 1));
                }
                j = j + 1;
            }
            let mut plan_trips: Vec<(u64, Option<TripSpec>)> = Vec::new();
            let mut t: usize = 0;
            while t < person.trips.len()
                invariant
                    map.wf(),
                    self.wf(*map),
                    p < self.people@.len(),
                    person == &self.people@[p as int],
                    t <= person.trips@.len(),
                    plan_trips@.len() == t,
                    vehicle_foreach_trip@ == vehicle_model(
                        spawn_trips(self.people@[p as int].trips@),
                    ).per_trip,
                    vehicle_foreach_trip@.len() == person.trips@.len(),
                    forall|i: int|
                        0 <= i < person.trips@.len() && (#[trigger] person.trips@[i]).trip.uses_vehicle()
                            ==> vehicle_foreach_trip@[i] is Some,
                    forall|tt: int|
                        0 <= tt < t ==> (#[trigger] plan_trips@[tt]).0 == person.trips@[tt].depart
                            && person.trips@[tt].trip.resolves_to(
                            *map,
                            vehicle_foreach_trip@[tt],
                            plan_trips@[tt].1,
                        ),
                decreases person.trips@.len() - t,
            {
                // The generator draws for picking a spawning lane at a
                // border vary over map edits, so make them on a fork.
                let mut tmp_rng = fork_rng(rng);
                let maybe_idx = vehicle_foreach_trip[t];
                proof {
                    assert(spawn_trips(person.trips@)[t as int] == person.trips@[t as int].trip);
                }
                let spec = person.trips[t].trip.to_trip_spec(maybe_idx, &mut tmp_rng, map);
                plan_trips.push((person.trips[t].depart, spec));
                t = t + 1;
            }
            people_plans.push(
                PersonPlan { id: person.id, ped_speed, vehicles: vehicle_specs, trips: plan_trips },
            );
            proof {
                assert(self.people@.take(p as int + 1).drop_last() =~= self.people@.take(p as int));
                assert(self.people@.take(p as int + 1).last() == self.people@[p as int]);
                let pairs = person_parked_pairs(self.people@[p as int]);
                assert(pairs.take(pairs.len() as int) =~= pairs);
                assert(parked_batch@ == all_parked_pairs(self.people@.take(p as int + 1)));
            }
            p = p + 1;
        }
        proof {
            assert(self.people@.take(self.people@.len() as int) =~= self.people@);
        }
        let parked_cars = seed_parked_cars(parked_batch, free_spots, map, rng);
        Instantiation {
            scenario_name: self.scenario_name.clone(),
            routes_to_seed,
            people: people_plans,
            parked_cars,
        }
    }

    /// Which bus routes of the map this scenario seeds, as indices into the
    /// map's route list: all of them, or exactly those whose name the
    /// filter lists.
    fn routes_to_seed(&self, map: &RoadNetwork) -> (routes: Vec<usize>)
        ensures
            routes_ok(self.only_seed_buses, map.bus_routes@, routes@),
    {
        let mut routes: Vec<usize> = Vec::new();
        match &self.only_seed_buses {
            None => {
                let mut i: usize = 0;
                while i < map.bus_routes.len()
                    invariant
                        routes@.len() == i,
                        i <= map.bus_routes@.len(),
                        forall|k: int| 0 <= k < i ==> (#[trigger] routes@[k]) == k,
                    decreases map.bus_routes@.len() - i,
                {
                    routes.push(i);
                    i = i + 1;
                }
            },
            Some(filter_names) => {
                let mut i: usize = 0;
                while i < map.bus_routes.len()
                    invariant
                        i <= map.bus_routes@.len(),
                        forall|k: int|
                            0 <= k < routes@.len() ==> (#[trigger] routes@[k])
                                < map.bus_routes@.len() && name_in(
                                filter_names@,
                                map.bus_routes@[routes@[k] as int]@,
                            ),
                        forall|ii: usize|
                            ii < i && name_in(filter_names@, (#[trigger] map.bus_routes@[ii as int])@)
                                ==> routes@.contains(ii),
                    decreases map.bus_routes@.len() - i,
                {
                    if contains_name(filter_names, &map.bus_routes[i]) {
                        let ghost prev = routes@;
                        routes.push(i);
                        proof {
                            assert(routes@[routes@.len() - 1] == i);
                            assert(routes@.contains(i));
                            assert forall|ii: usize| #[trigger] prev.contains(ii) implies routes@.contains(
                                ii,
                            ) by {
                                let k = choose|k: int| 0 <= k < prev.len() && prev[k] == ii;
                                assert(routes@[k] == ii);
                            }
                        }
                    }
                    i = i + 1;
                }
            },
        }
        routes
    }
}

/// Is `name` one of `names`?
pub open spec fn name_in(names: Seq<String>, name: Seq<char>) -> bool {
    exists|f: int| 0 <= f < names.len() && (#[trigger] names[f])@ == name
}

fn contains_name(names: &Vec<String>, name: &String) -> (r: bool)
    ensures
        r == name_in(names@, name@),
{
    let mut i: usize = 0;
    while i < names.len()
        invariant
            i <= names@.len(),
            forall|j: int| 0 <= j < i ==> (#[trigger] names@[j])@ != name@,
        decreases names@.len() - i,
    {
        if names[i] == *name {
            return true;
        }
        i = i + 1;
    }
    false
}

/// The route filter is honoured: without one, every route in order; with
/// one, exactly the routes whose name it lists.
pub open spec fn routes_ok(
    only_seed_buses: Option<Vec<String>>,
    bus_routes: Seq<String>,
    routes: Seq<usize>,
) -> bool {
    match only_seed_buses {
        None => routes.len() == bus_routes.len() && forall|k: int|
            0 <= k < routes.len() ==> (#[trigger] routes[k]) == k,
        Some(filter_names) => {
            &&& forall|k: int|
                0 <= k < routes.len() ==> (#[trigger] routes[k]) < bus_routes.len() && name_in(
                    filter_names@,
                    bus_routes[routes[k] as int]@,
                )
            &&& forall|ii: usize|
                ii < bus_routes.len() && name_in(filter_names@, (#[trigger] bus_routes[ii as int])@)
                    ==> routes.contains(ii)
        },
    }
}

/// The (vehicle, building) pairs one person wants initially parked.
pub open spec fn person_parked_pairs(p: PersonSpec) -> Seq<(CarID, usize)> {
    vehicle_model(spawn_trips(p.trips@)).parked.map_values(
        |e: (usize, usize)| (CarID { owner: p.id, idx: e.0 }, e.1),
    )
}

/// Every person's initially-parked pairs, in person order.
pub open spec fn all_parked_pairs(people: Seq<PersonSpec>) -> Seq<(CarID, usize)>
    decreases people.len(),
{
    if people.len() == 0 {
        Seq::empty()
    } else {
        all_parked_pairs(people.drop_last()) + person_parked_pairs(people.last())
    }
}

/// What resolution owes each person: their identity kept, a walking speed
/// in range, vehicles matching the model of their trip chain, and one
/// resolved entry per trip, in order, using the model's vehicle choice.
pub open spec fn plan_ok(plan: PersonPlan, person: PersonSpec, map: RoadNetwork) -> bool {
    &&& plan.id == person.id
    &&& MIN_PED_SPEED <= plan.ped_speed < MAX_PED_SPEED
    &&& vehicles_match(vehicle_model(spawn_trips(person.trips@)), plan.vehicles@)
    &&& plan.trips@.len() == person.trips@.len()
    &&& forall|t: int|
        0 <= t < plan.trips@.len() ==> (#[trigger] plan.trips@[t]).0 == person.trips@[t].depart
            && person.trips@[t].trip.resolves_to(
            map,
            vehicle_model(spawn_trips(person.trips@)).per_trip[t],
            plan.trips@[t].1,
        )
}

/// One person's resolved plan: what the engine needs to register them and
/// schedule their trips.
#[derive(Clone, Debug)]
pub struct PersonPlan {
    pub id: PersonID,
    /// Walking speed, in micrometers per second.
    pub ped_speed: u64,
    pub vehicles: Vec<VehicleSpec>,
    /// One entry per abstract trip: its departure and, when resolution
    /// succeeded, the concrete specification; `None` marks a dropped trip.
    pub trips: Vec<(u64, Option<TripSpec>)>,
}

/// Everything a resolved scenario hands the engine.
#[derive(Clone, Debug)]
pub struct Instantiation {
    pub scenario_name: String,
    /// Indices into the map's bus-route list.
    pub routes_to_seed: Vec<usize>,
    pub people: Vec<PersonPlan>,
    /// A concrete free spot for each car that could be seeded.
    pub parked_cars: Vec<(CarID, ParkingSpot)>,
}

} // verus!
