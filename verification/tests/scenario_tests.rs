use rand::RngCore;
use rand::SeedableRng;
use rand_xorshift::XorShiftRng;

use scenario::counter::Counter;
use scenario::demand::{
    IndividTrip, OrigID, PersonID, PersonSpec, VehicleType, BIKE_LENGTH, MAX_BIKE_SPEED,
    MAX_CAR_LENGTH, MAX_PED_SPEED, MIN_BIKE_SPEED, MIN_CAR_LENGTH, MIN_PED_SPEED,
};
use scenario::network::{Building, Intersection, Lane, Road, RoadNetwork};
use scenario::parking::{find_spot_near_building, seed_parked_cars, ParkingSpot};
use scenario::rng::fork_rng;
use scenario::scenario::Scenario;
use scenario::trips::{DrivingGoal, Position, SidewalkPOI, SidewalkSpot, SpawnTrip, TripEndpoint, TripSpec};

fn rng(seed: u64) -> XorShiftRng {
    XorShiftRng::seed_from_u64(seed)
}

/// A line of three roads 0 - 1 - 2, one border intersection with one
/// outgoing car lane on road 0, and one building on each road.
fn line_map() -> RoadNetwork {
    RoadNetwork {
        name: String::from("line"),
        roads: vec![
            Road { adjacent: vec![1] },
            Road { adjacent: vec![0, 2] },
            Road { adjacent: vec![1] },
        ],
        lanes: vec![
            Lane { parent: 0, src_i: 0 },
            Lane { parent: 1, src_i: 0 },
            Lane { parent: 2, src_i: 0 },
        ],
        intersections: vec![Intersection {
            outgoing_car_lanes: vec![0],
            outgoing_bike_lanes: vec![],
        }],
        buildings: vec![Building { road: 0 }, Building { road: 1 }, Building { road: 2 }],
        bus_routes: vec![String::from("route a"), String::from("route b")],
    }
}

fn walk_trip(from_bldg: usize, to_bldg: usize) -> SpawnTrip {
    SpawnTrip::JustWalking(
        SidewalkSpot { connection: SidewalkPOI::Building(from_bldg) },
        SidewalkSpot { connection: SidewalkPOI::Building(to_bldg) },
    )
}

fn person(id: usize, trips: Vec<IndividTrip>) -> PersonSpec {
    PersonSpec { id: PersonID(id), orig_id: OrigID(id, 0), trips }
}

#[test]
fn continuity_keeps_chained_person() {
    let map = line_map();
    let scenario = Scenario {
        scenario_name: String::from("s"),
        map_name: String::from("line"),
        people: vec![person(
            0,
            vec![
                IndividTrip {
                    depart: 100,
                    trip: SpawnTrip::UsingParkedCar(1, DrivingGoal::ParkNear(2)),
                },
                IndividTrip {
                    depart: 200,
                    trip: SpawnTrip::UsingParkedCar(2, DrivingGoal::Border(0, 0)),
                },
                IndividTrip { depart: 300, trip: SpawnTrip::FromBorder { i: 0, goal: DrivingGoal::ParkNear(1), is_bike: false } },
            ],
        )],
        only_seed_buses: None,
    };
    let out = scenario.remove_weird_schedules(&map);
    assert_eq!(out.people.len(), 1);
    assert_eq!(out.people[0].id, PersonID(0));
    assert_eq!(out.people[0].orig_id, OrigID(0, 0));
    assert_eq!(out.people[0].trips.len(), 3);
    assert_eq!(out.people[0].trips[0].depart, 100);
    assert_eq!(
        out.people[0].trips[1].trip,
        SpawnTrip::UsingParkedCar(2, DrivingGoal::Border(0, 0))
    );
}

#[test]
fn continuity_drops_warping_person_and_reindexes() {
    let map = line_map();
    let scenario = Scenario {
        scenario_name: String::from("s"),
        map_name: String::from("line"),
        people: vec![
            person(
                0,
                vec![
                    IndividTrip { depart: 0, trip: walk_trip(0, 1) },
                    // Warps: the previous trip ended at building 1.
                    IndividTrip { depart: 10, trip: walk_trip(2, 0) },
                ],
            ),
            person(1, vec![IndividTrip { depart: 0, trip: walk_trip(0, 2) }]),
            person(
                2,
                vec![
                    IndividTrip { depart: 0, trip: walk_trip(1, 2) },
                    IndividTrip { depart: 5, trip: walk_trip(2, 1) },
                ],
            ),
        ],
        only_seed_buses: None,
    };
    let out = scenario.remove_weird_schedules(&map);
    assert_eq!(out.people.len(), 2);
    // Identities are dense and sequential from zero after the pass.
    assert_eq!(out.people[0].id, PersonID(0));
    assert_eq!(out.people[1].id, PersonID(1));
    // The kept people are the formerly-second and formerly-third ones.
    assert_eq!(out.people[0].orig_id, OrigID(1, 0));
    assert_eq!(out.people[1].orig_id, OrigID(2, 0));
}

#[test]
fn vehicle_resolution_parked_car_reused() {
    let p = person(
        0,
        vec![
            IndividTrip {
                depart: 0,
                trip: SpawnTrip::UsingParkedCar(1, DrivingGoal::ParkNear(1)),
            },
            IndividTrip {
                depart: 100,
                trip: SpawnTrip::UsingParkedCar(1, DrivingGoal::Border(0, 0)),
            },
        ],
    );
    let mut r = rng(1);
    let (specs, parked, per_trip) = p.get_vehicles(&mut r);
    assert_eq!(specs.len(), 1);
    assert_eq!(specs[0].vehicle_type, VehicleType::Car);
    assert_eq!(parked, vec![(0, 1)]);
    assert_eq!(per_trip, vec![Some(0), Some(0)]);
}

#[test]
fn vehicle_resolution_offmap_reuse_never_makes_a_third_car() {
    let p = person(
        0,
        vec![
            IndividTrip {
                depart: 0,
                trip: SpawnTrip::VehicleAppearing {
                    start: Position { lane: 0, dist: 0 },
                    goal: DrivingGoal::ParkNear(1),
                    is_bike: false,
                },
            },
            IndividTrip {
                depart: 100,
                trip: SpawnTrip::VehicleAppearing {
                    start: Position { lane: 0, dist: 0 },
                    goal: DrivingGoal::Border(0, 0),
                    is_bike: false,
                },
            },
            IndividTrip {
                depart: 200,
                trip: SpawnTrip::VehicleAppearing {
                    start: Position { lane: 0, dist: 0 },
                    goal: DrivingGoal::Border(0, 0),
                    is_bike: false,
                },
            },
        ],
    );
    let mut r = rng(2);
    let (specs, parked, per_trip) = p.get_vehicles(&mut r);
    // The first car is parked when the second trip needs one, so two
    // distinct cars exist; the third trip reuses the one left off-map.
    assert_eq!(specs.len(), 2);
    assert_eq!(specs[0].vehicle_type, VehicleType::Car);
    assert_eq!(specs[1].vehicle_type, VehicleType::Car);
    assert!(parked.is_empty());
    assert_eq!(per_trip, vec![Some(0), Some(1), Some(1)]);
}

#[test]
fn one_bike_shared_across_trips() {
    let spot = SidewalkSpot { connection: SidewalkPOI::Building(0) };
    let p = person(
        0,
        vec![
            IndividTrip {
                depart: 0,
                trip: SpawnTrip::UsingBike(spot, DrivingGoal::ParkNear(1)),
            },
            IndividTrip { depart: 50, trip: walk_trip(1, 1) },
            IndividTrip {
                depart: 100,
                trip: SpawnTrip::UsingBike(spot, DrivingGoal::ParkNear(0)),
            },
        ],
    );
    let mut r = rng(3);
    let (specs, parked, per_trip) = p.get_vehicles(&mut r);
    assert_eq!(specs.len(), 1);
    assert_eq!(specs[0].vehicle_type, VehicleType::Bike);
    assert_eq!(specs[0].length, BIKE_LENGTH);
    let speed = specs[0].max_speed.unwrap();
    assert!(MIN_BIKE_SPEED <= speed && speed < MAX_BIKE_SPEED);
    assert!(parked.is_empty());
    assert_eq!(per_trip, vec![Some(0), None, Some(0)]);
}

#[test]
fn fork_same_state_gives_identical_children() {
    let mut a = rng(42);
    let mut b = rng(42);
    let mut fa = fork_rng(&mut a);
    let mut fb = fork_rng(&mut b);
    for _ in 0..32 {
        assert_eq!(fa.next_u64(), fb.next_u64());
    }
}

#[test]
fn fork_consumption_never_touches_parent() {
    let mut c = rng(7);
    let mut d = rng(7);
    let _discarded = fork_rng(&mut c);
    let mut used = fork_rng(&mut d);
    for _ in 0..100 {
        used.next_u64();
    }
    for _ in 0..32 {
        assert_eq!(c.next_u64(), d.next_u64());
    }
}

#[test]
fn bfs_prefers_nearest_road_with_a_spot() {
    let map = line_map();
    // Road 0 has no free spots, road 1 has one, road 2 has two.
    let near = ParkingSpot::Onstreet(1, 0);
    let far1 = ParkingSpot::Onstreet(2, 0);
    let far2 = ParkingSpot::Onstreet(2, 1);
    let mut pools = vec![vec![], vec![near], vec![far1, far2]];
    let got = find_spot_near_building(0, &mut pools, &map);
    assert_eq!(got, Some(near));
    assert!(pools[1].is_empty());
    assert_eq!(pools[2].len(), 2);
}

#[test]
fn bfs_uses_the_buildings_own_road_first() {
    let map = line_map();
    let own = ParkingSpot::Onstreet(1, 0);
    let other = ParkingSpot::Onstreet(2, 0);
    // Building 1 sits on road 1, which still has a spot.
    let mut pools = vec![vec![], vec![own], vec![other]];
    let got = find_spot_near_building(1, &mut pools, &map);
    assert_eq!(got, Some(own));
}

#[test]
fn bfs_exhausts_reachable_roads() {
    let map = line_map();
    let mut pools = vec![vec![], vec![], vec![]];
    let got = find_spot_near_building(2, &mut pools, &map);
    assert_eq!(got, None);
}

#[test]
fn seeding_stops_at_first_capacity_failure() {
    let map = line_map();
    let cars: Vec<(scenario::demand::CarID, usize)> = (0..3)
        .map(|k| {
            (
                scenario::demand::CarID { owner: PersonID(0), idx: k },
                0,
            )
        })
        .collect();
    let free = vec![ParkingSpot::Onstreet(0, 0), ParkingSpot::Onstreet(1, 0)];
    let mut r = rng(9);
    let assigned = seed_parked_cars(cars, free.clone(), &map, &mut r);
    // Two spots exist in all: the first two cars of the shuffled batch are
    // seeded on distinct spots from the inventory, then the first failure
    // stops everything after it.
    assert_eq!(assigned.len(), 2);
    for (_, spot) in &assigned {
        assert!(free.contains(spot));
    }
    assert_ne!(assigned[0].1, assigned[1].1);
}

#[test]
fn seeding_serves_everyone_when_supply_reaches() {
    let map = line_map();
    let cars: Vec<(scenario::demand::CarID, usize)> = (0..3)
        .map(|k| {
            (
                scenario::demand::CarID { owner: PersonID(0), idx: k },
                2,
            )
        })
        .collect();
    let free = vec![
        ParkingSpot::Onstreet(2, 0),
        ParkingSpot::Onstreet(2, 1),
        ParkingSpot::Onstreet(1, 0),
    ];
    let mut r = rng(10);
    let assigned = seed_parked_cars(cars, free.clone(), &map, &mut r);
    // Three reachable free spots for three cars: every pair is served.
    assert_eq!(assigned.len(), 3);
    let mut idxs: Vec<usize> = assigned.iter().map(|(c, _)| c.idx).collect();
    idxs.sort();
    assert_eq!(idxs, vec![0, 1, 2]);
    for a in 0..assigned.len() {
        assert!(free.contains(&assigned[a].1));
        for b in (a + 1)..assigned.len() {
            assert_ne!(assigned[a].1, assigned[b].1);
        }
    }
}

#[test]
fn repeat_days_shifts_and_suppresses_inbound() {
    let inbound = SpawnTrip::VehicleAppearing {
        start: Position { lane: 0, dist: 0 },
        goal: DrivingGoal::ParkNear(1),
        is_bike: false,
    };
    let walking = walk_trip(1, 1);
    let d0: u64 = 25_200;
    let d1: u64 = 28_800;
    let scenario = Scenario {
        scenario_name: String::from("one day"),
        map_name: String::from("line"),
        people: vec![person(
            0,
            vec![
                IndividTrip { depart: d0, trip: inbound },
                IndividTrip { depart: d1, trip: walking },
            ],
        )],
        only_seed_buses: None,
    };
    let out = scenario.repeat_days(3, true);
    assert_eq!(out.scenario_name, String::from("one day repeated for 3 days"));
    let trips = &out.people[0].trips;
    assert_eq!(trips.len(), 4);
    assert_eq!((trips[0].depart, trips[0].trip), (d0, inbound));
    assert_eq!((trips[1].depart, trips[1].trip), (d1, walking));
    assert_eq!((trips[2].depart, trips[2].trip), (d1 + 86_400, walking));
    assert_eq!((trips[3].depart, trips[3].trip), (d1 + 2 * 86_400, walking));
}

#[test]
fn repeat_days_without_avoid_keeps_everything() {
    let inbound = SpawnTrip::VehicleAppearing {
        start: Position { lane: 0, dist: 0 },
        goal: DrivingGoal::ParkNear(1),
        is_bike: false,
    };
    let scenario = Scenario {
        scenario_name: String::from("s"),
        map_name: String::from("line"),
        people: vec![person(0, vec![IndividTrip { depart: 60, trip: inbound }])],
        only_seed_buses: None,
    };
    let out = scenario.repeat_days(2, false);
    let trips = &out.people[0].trips;
    assert_eq!(trips.len(), 2);
    assert_eq!(trips[0].depart, 60);
    assert_eq!(trips[1].depart, 60 + 86_400);
}

#[test]
fn drawn_vehicles_stay_in_their_ranges() {
    let mut r = rng(11);
    for _ in 0..50 {
        let car = Scenario::rand_car(&mut r);
        assert_eq!(car.vehicle_type, VehicleType::Car);
        assert!(MIN_CAR_LENGTH <= car.length && car.length < MAX_CAR_LENGTH);
        assert!(car.max_speed.is_none());
        let bike = Scenario::rand_bike(&mut r);
        assert_eq!(bike.vehicle_type, VehicleType::Bike);
        assert_eq!(bike.length, BIKE_LENGTH);
        let s = bike.max_speed.unwrap();
        assert!(MIN_BIKE_SPEED <= s && s < MAX_BIKE_SPEED);
        let ped = Scenario::rand_ped_speed(&mut r);
        assert!(MIN_PED_SPEED <= ped && ped < MAX_PED_SPEED);
        let dist = Scenario::rand_dist(&mut r, 10, 12);
        assert!(10 <= dist && dist < 12);
    }
}

#[test]
fn empty_scenario_binds_to_map() {
    let map = line_map();
    let s = Scenario::empty(&map, "blank");
    assert_eq!(s.scenario_name, String::from("blank"));
    assert_eq!(s.map_name, String::from("line"));
    assert!(s.people.is_empty());
    assert_eq!(s.only_seed_buses, Some(vec![]));
}

#[test]
fn counter_counts_per_key() {
    let mut c = Counter::new();
    c.inc(4);
    c.inc(4);
    c.inc(9);
    assert_eq!(c.get(4), 2);
    assert_eq!(c.get(9), 1);
    assert_eq!(c.get(5), 0);
}

#[test]
fn parked_cars_counted_per_building() {
    let scenario = Scenario {
        scenario_name: String::from("s"),
        map_name: String::from("line"),
        people: vec![
            person(
                0,
                vec![IndividTrip {
                    depart: 0,
                    trip: SpawnTrip::UsingParkedCar(2, DrivingGoal::Border(0, 0)),
                }],
            ),
            person(
                1,
                vec![IndividTrip {
                    depart: 0,
                    trip: SpawnTrip::UsingParkedCar(2, DrivingGoal::ParkNear(1)),
                }],
            ),
            person(2, vec![IndividTrip { depart: 0, trip: walk_trip(0, 0) }]),
        ],
        only_seed_buses: None,
    };
    let c = scenario.count_parked_cars_per_bldg();
    assert_eq!(c.get(2), 2);
    assert_eq!(c.get(1), 0);
    assert_eq!(c.get(0), 0);
}

#[test]
fn border_entry_picks_the_only_compatible_lane() {
    let map = line_map();
    let trip = SpawnTrip::FromBorder { i: 0, goal: DrivingGoal::ParkNear(1), is_bike: false };
    let mut r = rng(5);
    let spec = trip.to_trip_spec(Some(0), &mut r, &map);
    assert_eq!(
        spec,
        Some(TripSpec::VehicleAppearing {
            start_pos: Position { lane: 0, dist: 0 },
            goal: DrivingGoal::ParkNear(1),
            use_vehicle: 0,
            retry_if_no_room: true,
        })
    );
}

#[test]
fn border_entry_without_compatible_lane_is_dropped() {
    let map = line_map();
    // A bike entering at the border, which has no outgoing bike lanes.
    let trip = SpawnTrip::FromBorder { i: 0, goal: DrivingGoal::ParkNear(1), is_bike: true };
    let mut r = rng(6);
    let spec = trip.to_trip_spec(Some(0), &mut r, &map);
    assert_eq!(spec, None);
}

#[test]
fn trip_endpoints_classify_buildings_and_borders() {
    let map = line_map();
    let from_border = SpawnTrip::FromBorder { i: 0, goal: DrivingGoal::ParkNear(2), is_bike: false };
    assert_eq!(from_border.start(&map), TripEndpoint::Border(0));
    assert_eq!(from_border.end(), TripEndpoint::Bldg(2));
    let appearing = SpawnTrip::VehicleAppearing {
        start: Position { lane: 2, dist: 500 },
        goal: DrivingGoal::Border(0, 0),
        is_bike: false,
    };
    // Lane 2 leaves intersection 0, so the trip starts at that border.
    assert_eq!(appearing.start(&map), TripEndpoint::Border(0));
    assert_eq!(appearing.end(), TripEndpoint::Border(0));
    let walk = walk_trip(1, 2);
    assert_eq!(walk.start(&map), TripEndpoint::Bldg(1));
    assert_eq!(walk.end(), TripEndpoint::Bldg(2));
}

#[test]
fn instantiate_resolves_a_small_scenario() {
    let map = line_map();
    let scenario = Scenario {
        scenario_name: String::from("tiny"),
        map_name: String::from("line"),
        people: vec![person(
            0,
            vec![
                IndividTrip {
                    depart: 10,
                    trip: SpawnTrip::UsingParkedCar(1, DrivingGoal::Border(0, 0)),
                },
            ],
        )],
        only_seed_buses: Some(vec![String::from("route b")]),
    };
    let free = vec![ParkingSpot::Onstreet(1, 0), ParkingSpot::Onstreet(2, 0)];
    let mut r = rng(8);
    let out = scenario.instantiate(&map, free.clone(), &mut r);
    assert_eq!(out.scenario_name, String::from("tiny"));
    // Only the listed route is seeded.
    assert_eq!(out.routes_to_seed, vec![1]);
    assert_eq!(out.people.len(), 1);
    let plan = &out.people[0];
    assert_eq!(plan.id, PersonID(0));
    assert!(MIN_PED_SPEED <= plan.ped_speed && plan.ped_speed < MAX_PED_SPEED);
    assert_eq!(plan.vehicles.len(), 1);
    assert_eq!(plan.vehicles[0].vehicle_type, VehicleType::Car);
    assert_eq!(plan.trips.len(), 1);
    assert_eq!(plan.trips[0].0, 10);
    assert_eq!(
        plan.trips[0].1,
        Some(TripSpec::UsingParkedCar { start_bldg: 1, goal: DrivingGoal::Border(0, 0), car: 0 })
    );
    // The one initially-parked car got a real spot from the inventory.
    assert_eq!(out.parked_cars.len(), 1);
    assert_eq!(out.parked_cars[0].0, scenario::demand::CarID { owner: PersonID(0), idx: 0 });
    assert!(free.contains(&out.parked_cars[0].1));
}

#[test]
fn instantiate_without_filter_seeds_all_routes() {
    let map = line_map();
    let scenario = Scenario {
        scenario_name: String::from("s"),
        map_name: String::from("line"),
        people: vec![],
        only_seed_buses: None,
    };
    let mut r = rng(13);
    let out = scenario.instantiate(&map, vec![], &mut r);
    assert_eq!(out.routes_to_seed, vec![0, 1]);
    assert!(out.people.is_empty());
    assert!(out.parked_cars.is_empty());
}
