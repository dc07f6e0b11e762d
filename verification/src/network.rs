use vstd::prelude::*;

verus! {

/// One driving lane. `parent` is the road it belongs to; `src_i` is the
/// intersection the lane leaves from.
#[derive(Clone, Copy, Debug, PartialEq, Eq, Structural)]
pub struct Lane {
    pub parent: usize,
    pub src_i: usize,
}

/// One road, with the roads adjacent to it in the network's own stable
/// enumeration order. Breadth-first searches over roads follow this order,
/// so their outcome is deterministic.
#[derive(Clone, Debug)]
pub struct Road {
    pub adjacent: Vec<usize>,
}

/// One intersection, with its outgoing lanes grouped by the movement class
/// that may use them.
#[derive(Clone, Debug)]
pub struct Intersection {
    pub outgoing_car_lanes: Vec<usize>,
    pub outgoing_bike_lanes: Vec<usize>,
}

/// One building. `road` is the road its connecting sidewalk belongs to: both
/// parking searches and off-street spot ownership resolve through it.
#[derive(Clone, Copy, Debug, PartialEq, Eq, Structural)]
pub struct Building {
    pub road: usize,
}

/// The road network a scenario is resolved against: the queries this core
/// needs from the map collaborator, with every entity named by its index.
#[derive(Clone, Debug)]
pub struct RoadNetwork {
    pub name: String,
    pub roads: Vec<Road>,
    pub lanes: Vec<Lane>,
    pub intersections: Vec<Intersection>,
    pub buildings: Vec<Building>,
    /// Names of the bus routes the map carries, in the map's own order.
    pub bus_routes: Vec<String>,
}

impl RoadNetwork {
    /// Every cross-reference lands inside the network.
    pub open spec fn wf(self) -> bool {
        &&& forall|r: int, k: int|
            0 <= r < self.roads@.len() && 0 <= k < self.roads@[r].adjacent@.len()
                ==> (#[trigger] self.roads@[r].adjacent@[k]) < self.roads@.len()
        &&& forall|l: int|
            0 <= l < self.lanes@.len() ==> (#[trigger] self.lanes@[l]).parent < self.roads@.len()
                && self.lanes@[l].src_i < self.intersections@.len()
        &&& forall|i: int, k: int|
            0 <= i < self.intersections@.len() && 0 <= k < self.intersections@[i].outgoing_car_lanes@.len()
                ==> (#[trigger] self.intersections@[i].outgoing_car_lanes@[k]) < self.lanes@.len()
        &&& forall|i: int, k: int|
            0 <= i < self.intersections@.len() && 0 <= k < self.intersections@[i].outgoing_bike_lanes@.len()
                ==> (#[trigger] self.intersections@[i].outgoing_bike_lanes@[k]) < self.lanes@.len()
        &&& forall|b: int|
            0 <= b < self.buildings@.len() ==> (#[trigger] self.buildings@[b]).road
                < self.roads@.len()
    }

    pub fn get_name(&self) -> (r: &String)
        ensures
            r@ == self.name@,
    {
        &self.name
    }

    /// The road a building's connecting sidewalk belongs to: the starting
    /// point for parking searches near that building.
    pub fn building_to_road(&self, b: usize) -> (r: usize)
        requires
            b < self.buildings@.len(),
        ensures
            r == self.buildings@[b as int].road,
    {
        self.buildings[b].road
    }

    /// The roads adjacent to `r`, in the network's stable order.
    pub fn get_next_roads(&self, r: usize) -> (adj: &Vec<usize>)
        requires
            r < self.roads@.len(),
        ensures
            adj@ == self.roads@[r as int].adjacent@,
    {
        &self.roads[r].adjacent
    }

    /// The outgoing lanes of intersection `i` that the given movement class
    /// may use.
    pub fn get_outgoing_lanes(&self, i: usize, is_bike: bool) -> (lanes: &Vec<usize>)
        requires
            i < self.intersections@.len(),
        ensures
            lanes@ == (if is_bike {
                self.intersections@[i as int].outgoing_bike_lanes@
            } else {
                self.intersections@[i as int].outgoing_car_lanes@
            }),
    {
        if is_bike {
            &self.intersections[i].outgoing_bike_lanes
        } else {
            &self.intersections[i].outgoing_car_lanes
        }
    }
}

} // verus!
