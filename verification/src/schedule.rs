use vstd::prelude::*;
use crate::demand::{IndividTrip, PersonID, PersonSpec};
use crate::network::RoadNetwork;
use crate::scenario::Scenario;
use crate::trips::{SpawnTrip, TripEndpoint};

verus! {

/// Seconds in a day: each repetition of a schedule shifts departures by this
/// much.
pub const SECONDS_PER_DAY: u64 = 86400;

/// The building a trip ends at, or `None` when it ends at a border.
pub open spec fn end_building(t: SpawnTrip) -> Option<usize> {
    match t.spec_end() {
        TripEndpoint::Bldg(b) => Some(b),
        TripEndpoint::Border(_) => None,
    }
}

/// The building a trip starts at, or `None` when it starts at a border.
pub open spec fn start_building(t: SpawnTrip, map: RoadNetwork) -> Option<usize> {
    match t.spec_start(map) {
        TripEndpoint::Bldg(b) => Some(b),
        TripEndpoint::Border(_) => None,
    }
}

/// A person's schedule chains: each trip ends where the next starts, where
/// endpoints are compared as "at building b" or "at any border" — once
/// off-map, a person may re-enter at any border.
pub open spec fn continuous(p: PersonSpec, map: RoadNetwork) -> bool {
    forall|i: int|
        0 <= i < p.trips@.len() - 1 ==> end_building((#[trigger] p.trips@[i]).trip)
            == start_building(p.trips@[i + 1].trip, map)
}

/// The people that continuity validation keeps, in order.
pub open spec fn keep_continuous(people: Seq<PersonSpec>, map: RoadNetwork) -> Seq<PersonSpec> {
    people.filter(|p: PersonSpec| continuous(p, map))
}

/// Is a trip an inbound drive: a non-bike vehicle appearing mid-map, i.e. a
/// trip that leaks a vehicle into the map from outside?
pub open spec fn is_inbound(t: SpawnTrip) -> bool {
    match t {
        SpawnTrip::VehicleAppearing { is_bike, .. } => !is_bike,
        _ => false,
    }
}

/// One day's copy of a trip list: departures shifted by a whole number of
/// days; on every day but the first, inbound drives are suppressed when
/// `avoid` is set.
pub open spec fn repeat_day(trips: Seq<IndividTrip>, day: int, avoid: bool) -> Seq<IndividTrip> {
    trips.filter(|t: IndividTrip| !(day > 0 && avoid && is_inbound(t.trip))).map_values(
        |t: IndividTrip|
            IndividTrip { depart: (t.depart + day * SECONDS_PER_DAY) as u64, trip: t.trip },
    )
}

/// A trip list replicated across `days` days.
pub open spec fn repeat_trips(trips: Seq<IndividTrip>, days: int, avoid: bool) -> Seq<IndividTrip>
    decreases days,
{
    if days <= 0 {
        Seq::empty()
    } else {
        repeat_trips(trips, days - 1, avoid) + repeat_day(trips, days - 1, avoid)
    }
}

/// What the repeated scenario is called, given the old name and the day
/// count.
pub uninterp spec fn repeated_name_of(name: Seq<char>, days: u64) -> Seq<char>;

/// Relies on std's `format!` with `Display` for `str` and `u64`: the
/// repeated scenario's name is a deterministic function of the old name and
/// the day count alone.
#[verifier::external_body]
fn repeated_scenario_name(name: &String, days: u64) -> (r: String)
    ensures
        r@ == repeated_name_of(name@, days),
{
    format!("{} repeated for {} days", name, days)
}

/// Copy a trip list; its entries are plain values.
fn clone_trips(v: &Vec<IndividTrip>) -> (r: Vec<IndividTrip>)
    ensures
        r@ == v@,
{
    let mut r: Vec<IndividTrip> = Vec::new();
    let mut i: usize = 0;
    while i < v.len()
        invariant
            i <= v@.len(),
            r@ == v@.take(i as int),
        decreases v@.len() - i,
    {
        r.push(v[i]);
        proof {
            assert(v@.take(i as int + 1) =~= v@.take(i as int).push(v@[i as int]));
        }
        i = i + 1;
    }
    proof {
        assert(v@.take(v@.len() as int) =~= v@);
    }
    r
}

/// Does this person's schedule chain, trip to trip?
#[verifier::rlimit(60)]
fn is_continuous(p: &PersonSpec, map: &RoadNetwork) -> (r: bool)
    requires
        forall|k: int| 0 <= k < p.trips@.len() ==> (#[trigger] p.trips@[k]).trip.wf(*map),
    ensures
        r == continuous(*p, *map),
{
    if p.trips.len() == 0 {
        return true;
    }
    let mut k: usize = 0;
    while k + 1 < p.trips.len()
        invariant
            k < p.trips@.len() <= usize::MAX,
            forall|j: int|
                0 <= j < k ==> end_building((#[trigger] p.trips@[j]).trip) == start_building(
                    p.trips@[j + 1].trip,
                    *map,
                ),
            forall|j: int| 0 <= j < p.trips@.len() ==> (#[trigger] p.trips@[j]).trip.wf(*map),
        decreases p.trips@.len() - k,
    {
        let eb = match p.trips[k].trip.end() {
            TripEndpoint::Bldg(b) => Some(b),
            TripEndpoint::Border(_) => None,
        };
        let sb = match p.trips[k + 1].trip.start(map) {
            TripEndpoint::Bldg(b) => Some(b),
            TripEndpoint::Border(_) => None,
        };
        let same = match (eb, sb) {
            (Some(x), Some(y)) => x == y,
            (None, None) => true,
            _ => false,
        };
        if !same {
            proof {
                assert(end_building(p.trips@[k as int].trip) != start_building(
                    p.trips@[k as int + 1].trip,
                    *map,
                ));
            }
            return false;
        }
        k = k + 1;
    }
    true
}

impl Scenario {
    /// Every trip of every person stays inside the network.
    pub open spec fn wf(self, map: RoadNetwork) -> bool {
        forall|p: int, i: int|
            0 <= p < self.people@.len() && 0 <= i < self.people@[p].trips@.len() ==> (#[trigger]
            self.people@[p].trips@[i]).trip.wf(map)
    }

    /// Continuity validation: a person whose trips do not chain (trip i ends
    /// at a building other than where trip i+1 starts) is dropped entirely;
    /// the people kept are re-indexed with dense sequential identities
    /// starting at zero, everything else about them unchanged.
    pub fn remove_weird_schedules(self, map: &RoadNetwork) -> (s: Scenario)
        requires
            self.wf(*map),
        ensures
            s.scenario_name@ == self.scenario_name@,
            s.map_name@ == self.map_name@,
            s.only_seed_buses == self.only_seed_buses,
            s.people@.len() == keep_continuous(self.people@, *map).len(),
            forall|j: int|
                0 <= j < s.people@.len() ==> (#[trigger] s.people@[j]).id == PersonID(j as usize)
                    && s.people@[j].orig_id == keep_continuous(self.people@, *map)[j].orig_id
                    && s.people@[j].trips@ == keep_continuous(self.people@, *map)[j].trips@,
    {
        let ghost pred = |p: PersonSpec| continuous(p, *map);
        let mut new_people: Vec<PersonSpec> = Vec::new();
        let mut i: usize = 0;
        proof {
            reveal_with_fuel(Seq::filter, 2);
            assert(self.people@.take(0) =~= Seq::<PersonSpec>::empty());
        }
        while i < self.people.len()
            invariant
                i <= self.people@.len(),
                self.wf(*map),
                new_people@.len() == self.people@.take(i as int).filter(pred).len(),
                pred == (|p: PersonSpec| continuous(p, *map)),
                forall|j: int|
                    0 <= j < new_people@.len() ==> (#[trigger] new_people@[j]).id == PersonID(
                        j as usize,
                    ) && new_people@[j].orig_id == self.people@.take(i as int).filter(
                        pred,
                    )[j].orig_id && new_people@[j].trips@ == self.people@.take(i as int).filter(
                        pred,
                    )[j].trips@,
            decreases self.people@.len() - i,
        {
            let p = &self.people[i];
            proof {
                assert(self.people@.take(i as int + 1).drop_last() =~= self.people@.take(i as int));
                assert(self.people@.take(i as int + 1).last() == self.people@[i as int]);
                reveal_with_fuel(Seq::filter, 2);
            }
            if is_continuous(p, map) {
                let id = PersonID(new_people.len());
                let trips = clone_trips(&p.trips);
                new_people.push(PersonSpec { id, orig_id: p.orig_id, trips });
            }
            i = i + 1;
        }
        proof {
            assert(self.people@.take(self.people@.len() as int) =~= self.people@);
        }
        Scenario {
            scenario_name: self.scenario_name,
            map_name: self.map_name,
            people: new_people,
            only_seed_buses: self.only_seed_buses,
        }
    }

    /// Day repetition: replicate every person's trip list across `days`
    /// days, shifting each repetition's departures by a whole number of
    /// days. With `avoid_inbound_trips`, trips that drive a vehicle in from
    /// outside the map are kept only on the first day, so parked vehicles do
    /// not accumulate day after day.
    pub fn repeat_days(self, days: usize, avoid_inbound_trips: bool) -> (s: Scenario)
        requires
            days * SECONDS_PER_DAY <= u64::MAX,
            forall|p: int, i: int|
                0 <= p < self.people@.len() && 0 <= i < self.people@[p].trips@.len() ==> (
                #[trigger] self.people@[p].trips@[i]).depart + (days as int - 1) * SECONDS_PER_DAY
                    <= u64::MAX,
        ensures
            s.scenario_name@ == repeated_name_of(self.scenario_name@, days as u64),
            s.map_name@ == self.map_name@,
            s.only_seed_buses == self.only_seed_buses,
            s.people@.len() == self.people@.len(),
            forall|p: int|
                0 <= p < s.people@.len() ==> (#[trigger] s.people@[p]).id == self.people@[p].id
                    && s.people@[p].orig_id == self.people@[p].orig_id && s.people@[p].trips@
                    == repeat_trips(self.people@[p].trips@, days as int, avoid_inbound_trips),
    {
        let scenario_name = repeated_scenario_name(&self.scenario_name, days as u64);
        let mut new_people: Vec<PersonSpec> = Vec::new();
        let mut pi: usize = 0;
        while pi < self.people.len()
            invariant
                pi <= self.people@.len(),
                new_people@.len() == pi,
                days * SECONDS_PER_DAY <= u64::MAX,
                forall|p: int, i: int|
                    0 <= p < self.people@.len() && 0 <= i < self.people@[p].trips@.len() ==> (
                    #[trigger] self.people@[p].trips@[i]).depart + (days as int - 1)
                        * SECONDS_PER_DAY <= u64::MAX,
                forall|p: int|
                    0 <= p < pi ==> (#[trigger] new_people@[p]).id == self.people@[p].id
                        && new_people@[p].orig_id == self.people@[p].orig_id
                        && new_people@[p].trips@ == repeat_trips(
                        self.people@[p].trips@,
                        days as int,
                        avoid_inbound_trips,
                    ),
            decreases self.people@.len() - pi,
        {
            let person = &self.people[pi];
            let new_trips = repeat_person_trips(&person.trips, days, avoid_inbound_trips);
            new_people.push(
                PersonSpec { id: person.id, orig_id: person.orig_id, trips: new_trips },
            );
            pi = pi + 1;
        }
        Scenario {
            scenario_name,
            map_name: self.map_name,
            people: new_people,
            only_seed_buses: self.only_seed_buses,
        }
    }
}

/// One person's trip list replicated across `days` days.
fn repeat_person_trips(trips: &Vec<IndividTrip>, days: usize, avoid: bool) -> (r: Vec<IndividTrip>)
    requires
        days * SECONDS_PER_DAY <= u64::MAX,
        forall|i: int|
            0 <= i < trips@.len() ==> (#[trigger] trips@[i]).depart + (days as int - 1)
                * SECONDS_PER_DAY <= u64::MAX,
    ensures
        r@ == repeat_trips(trips@, days as int, avoid),
{
    let mut r: Vec<IndividTrip> = Vec::new();
    let mut day: usize = 0;
    while day < days
        invariant
            day <= days,
            days * SECONDS_PER_DAY <= u64::MAX,
            forall|i: int|
                0 <= i < trips@.len() ==> (#[trigger] trips@[i]).depart + (days as int - 1)
                    * SECONDS_PER_DAY <= u64::MAX,
            r@ == repeat_trips(trips@, day as int, avoid),
        decreases days - day,
    {
        let ghost keep = |t: IndividTrip| !(day as int > 0 && avoid && is_inbound(t.trip));
        let ghost shift = |t: IndividTrip|
            IndividTrip { depart: (t.depart + day as int * SECONDS_PER_DAY) as u64, trip: t.trip };
        proof {
            assert(day as int * SECONDS_PER_DAY <= (days as int) * SECONDS_PER_DAY) by (nonlinear_arith)
                requires day as int <= days as int, SECONDS_PER_DAY > 0;
            reveal_with_fuel(Seq::filter, 2);
            assert(trips@.take(0) =~= Seq::<IndividTrip>::empty());
            assert(repeat_day(trips@.take(0), day as int, avoid) =~= Seq::<IndividTrip>::empty());
        }
        let offset: u64 = (day as u64) * SECONDS_PER_DAY;
        let mut j: usize = 0;
        while j < trips.len()
            invariant
                j <= trips@.len(),
                day < days,
                offset == day as int * SECONDS_PER_DAY,
                days * SECONDS_PER_DAY <= u64::MAX,
                forall|i: int|
                    0 <= i < trips@.len() ==> (#[trigger] trips@[i]).depart + (days as int - 1)
                        * SECONDS_PER_DAY <= u64::MAX,
                keep == (|t: IndividTrip| !(day as int > 0 && avoid && is_inbound(t.trip))),
                shift == (|t: IndividTrip|
                    IndividTrip {
                        depart: (t.depart + day as int * SECONDS_PER_DAY) as u64,
                        trip: t.trip,
                    }),
                r@ == repeat_trips(trips@, day as int, avoid) + repeat_day(
                    trips@.take(j as int),
                    day as int,
                    avoid,
                ),
            decreases trips@.len() - j,
        {
            let t = trips[j];
            proof {
                assert(day as int * SECONDS_PER_DAY <= (days as int - 1) * SECONDS_PER_DAY)
                    by (nonlinear_arith)
                    requires day as int <= days as int - 1, SECONDS_PER_DAY > 0;
                assert(trips@.take(j as int + 1).drop_last() =~= trips@.take(j as int));
                assert(trips@.take(j as int + 1).last() == trips@[j as int]);
                reveal_with_fuel(Seq::filter, 2);
                assert(trips@.take(j as int + 1).filter(keep) == if keep(trips@[j as int]) {
                    trips@.take(j as int).filter(keep).push(trips@[j as int])
                } else {
                    trips@.take(j as int).filter(keep)
                });
                if keep(trips@[j as int]) {
                    assert(repeat_day(trips@.take(j as int + 1), day as int, avoid)
                        =~= repeat_day(trips@.take(j as int), day as int, avoid).push(
                        shift(trips@[j as int]),
                    ));
                } else {
                    assert(repeat_day(trips@.take(j as int + 1), day as int, avoid)
                        =~= repeat_day(trips@.take(j as int), day as int, avoid));
                }
            }
            let inbound = match t.trip {
                SpawnTrip::VehicleAppearing { is_bike, .. } => !is_bike,
                _ => false,
            };
            if !(day > 0 && inbound && avoid) {
                r.push(IndividTrip { depart: t.depart + offset, trip: t.trip });
            }
            j = j + 1;
        }
        proof {
            assert(trips@.take(trips@.len() as int) =~= trips@);
        }
        day = day + 1;
    }
    r
}

} // verus!
