use vstd::prelude::*;
use vstd::multiset::Multiset;
use vstd::set_lib::set_int_range;
use std::collections::VecDeque;
use crate::demand::CarID;
use crate::network::RoadNetwork;
use crate::rng::{fork_rng, shuffle_vec};
use rand_xorshift::XorShiftRng;

verus! {

/// A free parking spot: the `idx`-th on-street spot of a lane, or the
/// `idx`-th off-street spot of a building.
#[derive(Clone, Copy, Debug, PartialEq, Eq, Structural)]
pub enum ParkingSpot {
    Onstreet(usize, usize),
    Offstreet(usize, usize),
}

impl ParkingSpot {
    pub open spec fn wf(self, map: RoadNetwork) -> bool {
        match self {
            ParkingSpot::Onstreet(l, _) => l < map.lanes@.len(),
            ParkingSpot::Offstreet(b, _) => b < map.buildings@.len(),
        }
    }

    /// Every spot belongs to exactly one road: on-street directly via its
    /// lane, off-street via its building's connecting sidewalk's road.
    pub open spec fn spec_road(self, map: RoadNetwork) -> usize {
        match self {
            ParkingSpot::Onstreet(l, _) => map.lanes@[l as int].parent,
            ParkingSpot::Offstreet(b, _) => map.buildings@[b as int].road,
        }
    }

    pub fn road(self, map: &RoadNetwork) -> (r: usize)
        requires
            self.wf(*map),
        ensures
            r == self.spec_road(*map),
    {
        match self {
            ParkingSpot::Onstreet(l, _) => map.lanes[l].parent,
            ParkingSpot::Offstreet(b, _) => map.buildings[b].road,
        }
    }
}

/// A sequence of roads each adjacent to the one before, leading from `from`
/// to `to`.
pub open spec fn is_road_path(map: RoadNetwork, path: Seq<usize>, from: usize, to: usize) -> bool {
    &&& path.len() >= 1
    &&& path[0] == from
    &&& path[path.len() - 1] == to
    &&& forall|k: int|
        0 <= k < path.len() - 1 ==> map.roads@[path[k] as int].adjacent@.contains(
            #[trigger] path[k + 1],
        )
}

/// Road `to` can be reached from road `from` over the adjacency graph.
pub open spec fn reachable(map: RoadNetwork, from: usize, to: usize) -> bool {
    exists|path: Seq<usize>| is_road_path(map, path, from, to)
}

/// Road `to` lies within `d` hops of road `from`.
pub open spec fn hop_dist_at_most(map: RoadNetwork, from: usize, to: usize, d: int) -> bool {
    exists|path: Seq<usize>| is_road_path(map, path, from, to) && path.len() <= d + 1
}

/// How many of the free spots sit on roads reachable from `road`.
pub open spec fn free_reachable_count(map: RoadNetwork, road: usize, free: Seq<ParkingSpot>) -> int
    decreases free.len(),
{
    if free.len() == 0 {
        0
    } else {
        free_reachable_count(map, road, free.drop_last()) + (if reachable(
            map,
            road,
            free.last().spec_road(map),
        ) {
            1int
        } else {
            0
        })
    }
}

pub proof fn lemma_reachable_self(map: RoadNetwork, from: usize)
    ensures
        reachable(map, from, from),
{
    let path = seq![from];
    assert(is_road_path(map, path, from, from));
}

/// One adjacency step extends a bounded-length path by one hop.
proof fn lemma_hop_step(map: RoadNetwork, from: usize, mid: usize, to: usize, d: int)
    requires
        hop_dist_at_most(map, from, mid, d),
        map.roads@[mid as int].adjacent@.contains(to),
    ensures
        hop_dist_at_most(map, from, to, d + 1),
{
    let path = choose|p: Seq<usize>| is_road_path(map, p, from, mid) && p.len() <= d + 1;
    let p2 = path.push(to);
    assert forall|k: int| 0 <= k < p2.len() - 1 implies map.roads@[p2[k] as int].adjacent@.contains(
        #[trigger] p2[k + 1],
    ) by {
        if k < p2.len() - 2 {
            assert(p2[k] == path[k]);
            assert(p2[k + 1] == path[k + 1]);
        } else {
            assert(p2[k] == path[path.len() - 1]);
            assert(p2[k + 1] == to);
        }
    }
    assert(is_road_path(map, p2, from, to) && p2.len() <= d + 2);
}

pub proof fn lemma_reachable_step(map: RoadNetwork, from: usize, mid: usize, to: usize)
    requires
        reachable(map, from, mid),
        map.roads@[mid as int].adjacent@.contains(to),
    ensures
        reachable(map, from, to),
{
    let path = choose|p: Seq<usize>| is_road_path(map, p, from, mid);
    let p2 = path.push(to);
    assert forall|k: int| 0 <= k < p2.len() - 1 implies map.roads@[p2[k] as int].adjacent@.contains(
        #[trigger] p2[k + 1],
    ) by {
        if k < p2.len() - 2 {
            assert(p2[k] == path[k]);
            assert(p2[k + 1] == path[k + 1]);
        } else {
            assert(p2[k] == path[path.len() - 1]);
            assert(p2[k + 1] == to);
        }
    }
    assert(is_road_path(map, p2, from, to));
}

/// Any road reachable from a member of a set that is closed under adjacency
/// is itself a member.
proof fn lemma_path_in_closed(
    map: RoadNetwork,
    closed: Set<usize>,
    path: Seq<usize>,
    from: usize,
    to: usize,
)
    requires
        map.wf(),
        from < map.roads@.len(),
        is_road_path(map, path, from, to),
        closed.contains(from),
        forall|x: usize, k: int|
            closed.contains(x) && x < map.roads@.len() && 0 <= k < map.roads@[x as int].adjacent@.len()
                ==> closed.contains(#[trigger] map.roads@[x as int].adjacent@[k]),
    ensures
        closed.contains(to),
        to < map.roads@.len(),
    decreases path.len(),
{
    if path.len() == 1 {
        assert(to == from);
    } else {
        let prev = path[path.len() - 2];
        let prev_path = path.drop_last();
        assert(prev_path.len() == path.len() - 1);
        assert forall|k: int|
            0 <= k < prev_path.len() - 1 implies map.roads@[prev_path[k] as int].adjacent@.contains(
            #[trigger] prev_path[k + 1],
        ) by {
            assert(prev_path[k] == path[k]);
            assert(prev_path[k + 1] == path[k + 1]);
        }
        assert(is_road_path(map, prev_path, from, prev));
        lemma_path_in_closed(map, closed, prev_path, from, prev);
        assert(map.roads@[prev as int].adjacent@.contains(path[path.len() - 2 + 1]));
        let j = choose|j: int|
            0 <= j < map.roads@[prev as int].adjacent@.len() && map.roads@[prev as int].adjacent@[j]
                == to;
        assert(closed.contains(map.roads@[prev as int].adjacent@[j]));
    }
}

/// Any path out of a breadth-first frontier is caught by it: its endpoint
/// is already processed within its length, or the path crosses a queued
/// road no deeper than its position along the path.
proof fn lemma_bfs_frontier(
    map: RoadNetwork,
    start: usize,
    processed: Set<int>,
    q: Seq<usize>,
    depth: Map<int, int>,
    visited: Seq<bool>,
    p: Seq<usize>,
)
    requires
        map.wf(),
        start < map.roads@.len(),
        visited.len() == map.roads@.len(),
        visited[start as int],
        depth[start as int] == 0,
        forall|x: int| #[trigger] processed.contains(x) ==> 0 <= x < map.roads@.len(),
        forall|x: usize|
            x < map.roads@.len() ==> ((#[trigger] visited[x as int]) <==> processed.contains(
                x as int,
            ) || q.contains(x)),
        forall|x: int, k: int|
            #[trigger] processed.contains(x) && 0 <= k < map.roads@[x].adjacent@.len()
                ==> visited[(#[trigger] map.roads@[x].adjacent@[k]) as int]
                && depth[map.roads@[x].adjacent@[k] as int] <= depth[x] + 1,
        is_road_path(map, p, start, p[p.len() - 1]),
    ensures
        (processed.contains(p[p.len() - 1] as int) && depth[p[p.len() - 1] as int] <= p.len() - 1)
            || exists|i: int| 0 <= i < p.len() && q.contains(#[trigger] p[i]) && depth[p[i] as int]
            <= i,
    decreases p.len(),
{
    if p.len() == 1 {
        assert(p[0] == start);
        if !processed.contains(start as int) {
            assert(q.contains(start));
            assert(q.contains(p[0]) && depth[p[0] as int] <= 0);
        }
    } else {
        let e = p[p.len() - 1];
        let e2 = p[p.len() - 2];
        let prev_path = p.drop_last();
        assert forall|k: int|
            0 <= k < prev_path.len() - 1 implies map.roads@[prev_path[k] as int].adjacent@.contains(
            #[trigger] prev_path[k + 1],
        ) by {
            assert(prev_path[k] == p[k]);
            assert(prev_path[k + 1] == p[k + 1]);
        }
        assert(is_road_path(map, prev_path, start, prev_path[prev_path.len() - 1]));
        lemma_bfs_frontier(map, start, processed, q, depth, visited, prev_path);
        if exists|i: int|
            0 <= i < prev_path.len() && q.contains(#[trigger] prev_path[i]) && depth[prev_path[i] as int]
                <= i {
            let i = choose|i: int|
                0 <= i < prev_path.len() && q.contains(#[trigger] prev_path[i])
                    && depth[prev_path[i] as int] <= i;
            assert(p[i] == prev_path[i]);
            assert(q.contains(p[i]) && depth[p[i] as int] <= i);
        } else {
            assert(processed.contains(e2 as int) && depth[e2 as int] <= prev_path.len() - 1);
            assert(map.roads@[p[p.len() - 2] as int].adjacent@.contains(p[p.len() - 2 + 1]));
            let j = choose|j: int|
                0 <= j < map.roads@[e2 as int].adjacent@.len() && map.roads@[e2 as int].adjacent@[j]
                    == e;
            assert(visited[map.roads@[e2 as int].adjacent@[j] as int]);
            assert(depth[map.roads@[e2 as int].adjacent@[j] as int] <= depth[e2 as int] + 1);
            assert(e < map.roads@.len());
            assert(depth[e as int] <= p.len() - 1);
            if !processed.contains(e as int) {
                assert(q.contains(e));
                assert(q.contains(p[p.len() - 1]) && depth[p[p.len() - 1] as int] <= p.len() - 1);
            }
        }
    }
}

/// Every spot in a road's pool is well-formed and belongs to that road.
pub open spec fn pool_ok(pool: Seq<ParkingSpot>, r: int, map: RoadNetwork) -> bool {
    forall|k: int|
        0 <= k < pool.len() ==> (#[trigger] pool[k]).wf(map) && pool[k].spec_road(map) == r
}

/// All the spots held by all the per-road pools, as one multiset.
pub open spec fn pools_multiset(pools: Seq<Vec<ParkingSpot>>) -> Multiset<ParkingSpot>
    decreases pools.len(),
{
    if pools.len() == 0 {
        Multiset::empty()
    } else {
        pools_multiset(pools.drop_last()).add(pools.last()@.to_multiset())
    }
}

/// Replacing one pool exchanges exactly that pool's contribution.
proof fn lemma_pools_multiset_update(p: Seq<Vec<ParkingSpot>>, r: int, v: Vec<ParkingSpot>)
    requires
        0 <= r < p.len(),
    ensures
        pools_multiset(p.update(r, v)).add(p[r]@.to_multiset()) =~= pools_multiset(p).add(
            v@.to_multiset(),
        ),
    decreases p.len(),
{
    broadcast use vstd::multiset::group_multiset_axioms;

    let pu = p.update(r, v);
    assert(pu.len() == p.len());
    if r == p.len() - 1 {
        assert(pu.drop_last() =~= p.drop_last());
        assert(pu.last() == v);
        assert(p.last() == p[r]);
        assert(pools_multiset(pu) == pools_multiset(pu.drop_last()).add(pu.last()@.to_multiset()));
        assert(pools_multiset(p) == pools_multiset(p.drop_last()).add(p.last()@.to_multiset()));
        assert forall|x: ParkingSpot|
            pools_multiset(pu).add(p[r]@.to_multiset()).count(x) == pools_multiset(p).add(
                v@.to_multiset(),
            ).count(x) by {
            assert(pools_multiset(pu).count(x) == pools_multiset(p.drop_last()).count(x)
                + v@.to_multiset().count(x));
            assert(pools_multiset(p).count(x) == pools_multiset(p.drop_last()).count(x)
                + p[r]@.to_multiset().count(x));
        }
    } else {
        assert(pu.drop_last() =~= p.drop_last().update(r, v));
        assert(pu.last() == p.last());
        lemma_pools_multiset_update(p.drop_last(), r, v);
        assert(p.drop_last()[r] == p[r]);
        assert(pools_multiset(pu) == pools_multiset(pu.drop_last()).add(pu.last()@.to_multiset()));
        assert(pools_multiset(p) == pools_multiset(p.drop_last()).add(p.last()@.to_multiset()));
        assert forall|x: ParkingSpot|
            pools_multiset(pu).add(p[r]@.to_multiset()).count(x) == pools_multiset(p).add(
                v@.to_multiset(),
            ).count(x) by {
            assert(pools_multiset(pu.drop_last()).add(
                p.drop_last()[r]@.to_multiset(),
            ).count(x) == pools_multiset(p.drop_last()).add(v@.to_multiset()).count(x));
            assert(pools_multiset(pu).count(x) == pools_multiset(pu.drop_last()).count(x)
                + p.last()@.to_multiset().count(x));
            assert(pools_multiset(p).count(x) == pools_multiset(p.drop_last()).count(x)
                + p.last()@.to_multiset().count(x));
        }
    }
}

/// The pooled multiset only depends on what each pool holds.
proof fn lemma_pools_multiset_congruence(p: Seq<Vec<ParkingSpot>>, q: Seq<Vec<ParkingSpot>>)
    requires
        p.len() == q.len(),
        forall|o: int| 0 <= o < p.len() ==> (#[trigger] q[o])@ == p[o]@,
    ensures
        pools_multiset(p) =~= pools_multiset(q),
    decreases p.len(),
{
    if p.len() > 0 {
        assert forall|o: int| 0 <= o < p.drop_last().len() implies (#[trigger] q.drop_last()[o])@
            == p.drop_last()[o]@ by {
            assert(q.drop_last()[o] == q[o]);
            assert(p.drop_last()[o] == p[o]);
        }
        lemma_pools_multiset_congruence(p.drop_last(), q.drop_last());
        assert(q.last()@ == p.last()@);
    }
}

/// Exchanging one pool for another exchanges exactly their contributions,
/// however the pools are stored.
proof fn lemma_pools_multiset_pointwise(p: Seq<Vec<ParkingSpot>>, q: Seq<Vec<ParkingSpot>>, r: int)
    requires
        p.len() == q.len(),
        0 <= r < p.len(),
        forall|o: int| 0 <= o < p.len() && o != r ==> (#[trigger] q[o])@ == p[o]@,
    ensures
        pools_multiset(q).add(p[r]@.to_multiset()) =~= pools_multiset(p).add(q[r]@.to_multiset()),
    decreases p.len(),
{
    broadcast use vstd::multiset::group_multiset_axioms;

    if r == p.len() - 1 {
        assert forall|o: int| 0 <= o < p.drop_last().len() implies (#[trigger] q.drop_last()[o])@
            == p.drop_last()[o]@ by {
            assert(q.drop_last()[o] == q[o]);
            assert(p.drop_last()[o] == p[o]);
        }
        lemma_pools_multiset_congruence(p.drop_last(), q.drop_last());
        assert(pools_multiset(p) == pools_multiset(p.drop_last()).add(p.last()@.to_multiset()));
        assert(pools_multiset(q) == pools_multiset(q.drop_last()).add(q.last()@.to_multiset()));
        assert(p.last() == p[r] && q.last() == q[r]);
        assert forall|x: ParkingSpot|
            pools_multiset(q).add(p[r]@.to_multiset()).count(x) == pools_multiset(p).add(
                q[r]@.to_multiset(),
            ).count(x) by {
            assert(pools_multiset(q.drop_last()).count(x) == pools_multiset(
                p.drop_last(),
            ).count(x));
        }
    } else {
        assert forall|o: int|
            0 <= o < p.drop_last().len() && o != r implies (#[trigger] q.drop_last()[o])@
            == p.drop_last()[o]@ by {
            assert(q.drop_last()[o] == q[o]);
            assert(p.drop_last()[o] == p[o]);
        }
        lemma_pools_multiset_pointwise(p.drop_last(), q.drop_last(), r);
        assert(p.drop_last()[r] == p[r] && q.drop_last()[r] == q[r]);
        assert(pools_multiset(p) == pools_multiset(p.drop_last()).add(p.last()@.to_multiset()));
        assert(pools_multiset(q) == pools_multiset(q.drop_last()).add(q.last()@.to_multiset()));
        assert(q.last()@ == p.last()@);
        assert forall|x: ParkingSpot|
            pools_multiset(q).add(p[r]@.to_multiset()).count(x) == pools_multiset(p).add(
                q[r]@.to_multiset(),
            ).count(x) by {
            assert(pools_multiset(q.drop_last()).add(p[r]@.to_multiset()).count(x)
                == pools_multiset(p.drop_last()).add(q[r]@.to_multiset()).count(x));
        }
    }
}

/// A spot counted by the pooled multiset sits in one of the pools.
proof fn lemma_pools_multiset_member(p: Seq<Vec<ParkingSpot>>, x: ParkingSpot)
    requires
        pools_multiset(p).count(x) > 0,
    ensures
        exists|r: int| 0 <= r < p.len() && (#[trigger] p[r])@.contains(x),
    decreases p.len(),
{
    broadcast use vstd::multiset::group_multiset_axioms;
    broadcast use vstd::seq_lib::group_to_multiset_ensures;

    if p.len() == 0 {
        assert(pools_multiset(p).count(x) == 0);
    } else if p.last()@.to_multiset().count(x) > 0 {
        assert(p.last()@.contains(x));
        assert(p[p.len() - 1] == p.last());
    } else {
        assert(pools_multiset(p.drop_last()).count(x) > 0);
        lemma_pools_multiset_member(p.drop_last(), x);
        let r = choose|r: int| 0 <= r < p.drop_last().len() && (#[trigger] p.drop_last()[r])@.contains(x);
        assert(p[r] == p.drop_last()[r]);
    }
}

/// Filtering a sequence and filtering its multiset agree.
proof fn lemma_seq_filter_to_multiset(s: Seq<ParkingSpot>, pred: spec_fn(ParkingSpot) -> bool)
    ensures
        s.filter(pred).to_multiset() =~= s.to_multiset().filter(pred),
    decreases s.len(),
{
    broadcast use vstd::multiset::group_multiset_axioms;
    broadcast use vstd::seq_lib::group_to_multiset_ensures;

    reveal_with_fuel(Seq::filter, 2);
    if s.len() == 0 {
        assert(s.filter(pred) =~= Seq::<ParkingSpot>::empty());
        s.filter(pred).to_multiset_ensures();
        vstd::multiset::lemma_multiset_empty_len(s.filter(pred).to_multiset());
        s.to_multiset_ensures();
        vstd::multiset::lemma_multiset_empty_len(s.to_multiset());
        assert forall|x: ParkingSpot|
            s.filter(pred).to_multiset().count(x) == s.to_multiset().filter(pred).count(x) by {
            assert(s.to_multiset().count(x) == 0);
        }
    } else {
        lemma_seq_filter_to_multiset(s.drop_last(), pred);
        let last = s.last();
        assert(s =~= s.drop_last().push(last));
        assert(s.to_multiset() == s.drop_last().push(last).to_multiset());
        assert(s.to_multiset() =~= s.drop_last().to_multiset().insert(last));
        if pred(last) {
            assert(s.filter(pred) == s.drop_last().filter(pred).push(last));
        } else {
            assert(s.filter(pred) == s.drop_last().filter(pred));
        }
        assert forall|x: ParkingSpot|
            s.filter(pred).to_multiset().count(x) == s.to_multiset().filter(pred).count(x) by {
            assert(s.drop_last().filter(pred).to_multiset().count(x) == s.drop_last().to_multiset().filter(
                pred,
            ).count(x));
        }
    }
}

/// The reachable-spot count is the length of the matching filter.
proof fn lemma_free_reachable_count_filter(
    map: RoadNetwork,
    road: usize,
    free: Seq<ParkingSpot>,
    pred: spec_fn(ParkingSpot) -> bool,
)
    requires
        forall|s: ParkingSpot| #[trigger] pred(s) == reachable(map, road, s.spec_road(map)),
    ensures
        free_reachable_count(map, road, free) == free.filter(pred).len(),
    decreases free.len(),
{
    reveal_with_fuel(Seq::filter, 2);
    if free.len() == 0 {
        assert(free.filter(pred) =~= Seq::<ParkingSpot>::empty());
    } else {
        lemma_free_reachable_count_filter(map, road, free.drop_last(), pred);
        assert(pred(free.last()) == reachable(map, road, free.last().spec_road(map)));
    }
}

/// A filtered multiset is no larger than the whole.
proof fn lemma_multiset_filter_len_le(m: Multiset<ParkingSpot>, pred: spec_fn(ParkingSpot) -> bool)
    ensures
        m.filter(pred).len() <= m.len(),
{
    broadcast use vstd::multiset::group_multiset_axioms;

    let neg = |x: ParkingSpot| !pred(x);
    assert(m =~= m.filter(pred).add(m.filter(neg)));
    assert(m.len() == m.filter(pred).len() + m.filter(neg).len());
}

/// A pool with the same contents (in any order) serves the same road.
proof fn lemma_pool_ok_multiset(p1: Seq<ParkingSpot>, p2: Seq<ParkingSpot>, r: int, map: RoadNetwork)
    requires
        p1.to_multiset() == p2.to_multiset(),
        pool_ok(p1, r, map),
    ensures
        pool_ok(p2, r, map),
{
    broadcast use vstd::seq_lib::group_to_multiset_ensures;

    assert forall|k: int| 0 <= k < p2.len() implies (#[trigger] p2[k]).wf(map) && p2[k].spec_road(
        map,
    ) == r by {
        assert(p2.contains(p2[k]));
        assert(p2.to_multiset().count(p2[k]) > 0);
        assert(p1.contains(p2[k]));
        let j = choose|j: int| 0 <= j < p1.len() && p1[j] == p2[k];
        assert(pool_ok(p1, r, map) && 0 <= j < p1.len());
    }
}

fn pool_push(pools: &mut Vec<Vec<ParkingSpot>>, r: usize, spot: ParkingSpot)
    requires
        r < old(pools)@.len(),
    ensures
        final(pools)@ == old(pools)@.update(r as int, final(pools)@[r as int]),
        final(pools)@.len() == old(pools)@.len(),
        final(pools)@[r as int]@ == old(pools)@[r as int]@.push(spot),
{
    let pool = &mut pools[r];
    pool.push(spot);
}

fn pool_pop(pools: &mut Vec<Vec<ParkingSpot>>, r: usize) -> (s: ParkingSpot)
    requires
        r < old(pools)@.len(),
        old(pools)@[r as int]@.len() > 0,
    ensures
        s == old(pools)@[r as int]@.last(),
        final(pools)@ == old(pools)@.update(r as int, final(pools)@[r as int]),
        final(pools)@.len() == old(pools)@.len(),
        final(pools)@[r as int]@ == old(pools)@[r as int]@.drop_last(),
{
    let pool = &mut pools[r];
    let s_opt = pool.pop();
    s_opt.unwrap()
}

fn pool_shuffle(pools: &mut Vec<Vec<ParkingSpot>>, r: usize, rng: &mut XorShiftRng)
    requires
        r < old(pools)@.len(),
    ensures
        final(pools)@ == old(pools)@.update(r as int, final(pools)@[r as int]),
        final(pools)@.len() == old(pools)@.len(),
        final(pools)@[r as int]@.to_multiset() == old(pools)@[r as int]@.to_multiset(),
{
    let pool = &mut pools[r];
    shuffle_vec(pool, rng);
}

/// Group the engine's free spots by owning road: one pool per road.
fn group_spots(free_spots: &Vec<ParkingSpot>, map: &RoadNetwork) -> (pools: Vec<
    Vec<ParkingSpot>,
>)
    requires
        map.wf(),
        forall|j: int| 0 <= j < free_spots@.len() ==> (#[trigger] free_spots@[j]).wf(*map),
    ensures
        pools@.len() == map.roads@.len(),
        forall|r: int| 0 <= r < pools@.len() ==> pool_ok((#[trigger] pools@[r])@, r, *map),
        pools_multiset(pools@) =~= free_spots@.to_multiset(),
{
    let n = map.roads.len();
    let mut pools: Vec<Vec<ParkingSpot>> = Vec::new();
    while pools.len() < n
        invariant
            pools@.len() <= n,
            forall|r: int| 0 <= r < pools@.len() ==> (#[trigger] pools@[r])@.len() == 0,
            pools_multiset(pools@) =~= Multiset::<ParkingSpot>::empty(),
        decreases n - pools@.len(),
    {
        let ghost prev = pools@;
        let empty_pool: Vec<ParkingSpot> = Vec::new();
        pools.push(empty_pool);
        proof {
            broadcast use vstd::multiset::group_multiset_axioms;

            assert(pools@.drop_last() =~= prev);
            assert(pools@.last()@ =~= Seq::<ParkingSpot>::empty());
            pools@.last()@.to_multiset_ensures();
            vstd::multiset::lemma_multiset_empty_len(pools@.last()@.to_multiset());
            assert(pools_multiset(pools@) =~= Multiset::<ParkingSpot>::empty());
        }
    }
    proof {
        broadcast use vstd::multiset::group_multiset_axioms;

        assert(free_spots@.take(0) =~= Seq::<ParkingSpot>::empty());
        free_spots@.take(0).to_multiset_ensures();
        vstd::multiset::lemma_multiset_empty_len(free_spots@.take(0).to_multiset());
    }
    let mut i: usize = 0;
    while i < free_spots.len()
        invariant
            map.wf(),
            forall|j: int| 0 <= j < free_spots@.len() ==> (#[trigger] free_spots@[j]).wf(*map),
            pools@.len() == n,
            n == map.roads@.len(),
            i <= free_spots@.len(),
            forall|r: int| 0 <= r < pools@.len() ==> pool_ok((#[trigger] pools@[r])@, r, *map),
            pools_multiset(pools@) =~= free_spots@.take(i as int).to_multiset(),
        decreases free_spots@.len() - i,
    {
        let spot = free_spots[i];
        let road = spot.road(map);
        let ghost prev = pools@;
        pool_push(&mut pools, road, spot);
        proof {
            broadcast use vstd::multiset::group_multiset_axioms;
            broadcast use vstd::seq_lib::group_to_multiset_ensures;

            lemma_pools_multiset_update(prev, road as int, pools@[road as int]);
            assert(pools@[road as int]@.to_multiset() =~= prev[road as int]@.to_multiset().insert(
                spot,
            ));
            assert(free_spots@.take(i as int + 1).drop_last() =~= free_spots@.take(i as int));
            assert(free_spots@.take(i as int + 1) =~= free_spots@.take(i as int).push(spot));
            assert(free_spots@.take(i as int + 1).to_multiset() =~= free_spots@.take(
                i as int,
            ).to_multiset().insert(spot));
            assert forall|x: ParkingSpot|
                pools_multiset(pools@).count(x) == free_spots@.take(
                    i as int + 1,
                ).to_multiset().count(x) by {
                assert(pools_multiset(pools@).add(
                    prev[road as int]@.to_multiset(),
                ).count(x) == pools_multiset(prev).add(
                    pools@[road as int]@.to_multiset(),
                ).count(x));
                assert(pools@[road as int]@.to_multiset().count(x) == prev[road as int]@.to_multiset().count(
                    x,
                ) + (if x == spot { 1int } else { 0 }));
                assert(free_spots@.take(i as int + 1).to_multiset().count(x) == free_spots@.take(
                    i as int,
                ).to_multiset().count(x) + (if x == spot { 1int } else { 0 }));
            }
            assert(pools_multiset(pools@) =~= free_spots@.take(i as int + 1).to_multiset());
            assert forall|r: int| 0 <= r < pools@.len() implies pool_ok(
                (#[trigger] pools@[r])@,
                r,
                *map,
            ) by {
                if r == road as int {
                    assert(pools@[r]@ =~= prev[r]@.push(spot));
                } else {
                    assert(pools@[r] == prev[r]);
                }
            }
        }
        i = i + 1;
    }
    proof {
        assert(free_spots@.take(free_spots@.len() as int) =~= free_spots@);
    }
    pools
}

fn false_vec(n: usize) -> (v: Vec<bool>)
    ensures
        v@.len() == n,
        forall|i: int| 0 <= i < n ==> !(#[trigger] v@[i]),
{
    let mut v: Vec<bool> = Vec::new();
    while v.len() < n
        invariant
            v@.len() <= n,
            forall|i: int| 0 <= i < v@.len() ==> !(#[trigger] v@[i]),
        decreases n - v@.len(),
    {
        v.push(false);
    }
    v
}

/// What a successful search did: it popped `spot` from the pool of `road`,
/// a road reachable from building `b`'s own road and no farther from it, in
/// hops, than any road whose pool still held a spot; and it left every
/// other pool alone.
pub open spec fn popped_spot_from(
    road: int,
    b: usize,
    prev: Seq<Vec<ParkingSpot>>,
    now: Seq<Vec<ParkingSpot>>,
    spot: ParkingSpot,
    map: RoadNetwork,
) -> bool {
    &&& 0 <= road < map.roads@.len()
    &&& reachable(map, map.buildings@[b as int].road, road as usize)
    &&& prev[road]@.len() > 0
    &&& spot == prev[road]@.last()
    &&& now[road]@ == prev[road]@.drop_last()
    &&& forall|o: int| 0 <= o < prev.len() && o != road ==> (#[trigger] now[o])@ == prev[o]@
    &&& forall|o: usize, d: int|
        o < map.roads@.len() && prev[o as int]@.len() > 0 && #[trigger] hop_dist_at_most(
            map,
            map.buildings@[b as int].road,
            o,
            d,
        ) ==> hop_dist_at_most(map, map.buildings@[b as int].road, road as usize, d)
}

/// Pick a parking spot for this building: breadth-first search outward from
/// the building's road, in the network's deterministic adjacency order,
/// until some visited road's pool has a spot to pop. If the building's own
/// road has a free spot, that road's pool serves. Returns `None` — and
/// leaves every pool untouched — exactly when no road reachable from the
/// building's road has a free spot left.
#[verifier::rlimit(100)]
pub fn find_spot_near_building(
    b: usize,
    open_spots_per_road: &mut Vec<Vec<ParkingSpot>>,
    map: &RoadNetwork,
) -> (res: Option<ParkingSpot>)
    requires
        map.wf(),
        b < map.buildings@.len(),
        old(open_spots_per_road)@.len() == map.roads@.len(),
    ensures
        final(open_spots_per_road)@.len() == old(open_spots_per_road)@.len(),
        (res matches Some(spot) ==> exists|road: int|
            popped_spot_from(
                road,
                b,
                old(open_spots_per_road)@,
                final(open_spots_per_road)@,
                spot,
                *map,
            )),
        (res matches Some(spot) ==> (old(
            open_spots_per_road,
        )@[map.buildings@[b as int].road as int]@.len() > 0 ==> popped_spot_from(
            map.buildings@[b as int].road as int,
            b,
            old(open_spots_per_road)@,
            final(open_spots_per_road)@,
            spot,
            *map,
        ))),
        (res is None ==> final(open_spots_per_road)@ == old(open_spots_per_road)@ && forall|
            road: usize,
        |
            road < map.roads@.len() && reachable(*map, map.buildings@[b as int].road, road)
                ==> (#[trigger] old(open_spots_per_road)@[road as int])@.len() == 0),
{
    let n = map.roads.len();
    let start = map.building_to_road(b);
    let mut roads_queue: VecDeque<usize> = VecDeque::new();
    let mut visited: Vec<bool> = false_vec(n);
    let ghost mut processed: Set<int> = Set::empty();
    // The breadth-first hop distance of each visited road from `start`.
    let ghost mut depth: Map<int, int> = Map::empty().insert(start as int, 0);
    roads_queue.push_back(start);
    visited.set(start, true);
    proof {
        lemma_reachable_self(*map, start);
        assert(set_int_range(0, n as int).finite()) by {
            vstd::set_lib::lemma_int_range(0, n as int);
        }
        assert(roads_queue@ =~= seq![start]);
        assert(roads_queue@[0] == start);
        assert(roads_queue@.contains(start));
        assert forall|x: usize| #[trigger] roads_queue@.contains(x) implies x == start by {
            let k = choose|k: int| 0 <= k < roads_queue@.len() && roads_queue@[k] == x;
        }
        assert(is_road_path(*map, seq![start], start, start) && seq![start].len() <= 0 + 1);
        assert(hop_dist_at_most(*map, start, start, 0));
    }
    loop
        invariant
            map.wf(),
            n == map.roads@.len(),
            b < map.buildings@.len(),
            start == map.buildings@[b as int].road,
            start < n,
            visited@.len() == n,
            open_spots_per_road@ == old(open_spots_per_road)@,
            open_spots_per_road@.len() == n,
            visited@[start as int],
            forall|k: int|
                0 <= k < roads_queue@.len() ==> (#[trigger] roads_queue@[k]) < n
                    && visited@[roads_queue@[k] as int],
            roads_queue@.no_duplicates(),
            forall|k: int|
                0 <= k < roads_queue@.len() ==> !processed.contains(
                    (#[trigger] roads_queue@[k]) as int,
                ),
            forall|x: usize|
                x < n ==> ((#[trigger] visited@[x as int]) <==> processed.contains(x as int)
                    || roads_queue@.contains(x)),
            forall|x: int| 0 <= x < n && #[trigger] visited@[x] ==> reachable(*map, start, x as usize),
            forall|x: int|
                #[trigger] processed.contains(x) ==> 0 <= x < n && open_spots_per_road@[x]@.len()
                    == 0,
            forall|x: int, k: int|
                #[trigger] processed.contains(x) && 0 <= k < map.roads@[x].adjacent@.len()
                    ==> visited@[(#[trigger] map.roads@[x].adjacent@[k]) as int]
                    && depth[map.roads@[x].adjacent@[k] as int] <= depth[x] + 1,
            depth[start as int] == 0,
            forall|x: int|
                0 <= x < n && #[trigger] visited@[x] ==> 0 <= depth[x] && hop_dist_at_most(
                    *map,
                    start,
                    x as usize,
                    depth[x],
                ),
            forall|k1: int, k2: int|
                0 <= k1 <= k2 < roads_queue@.len() ==> depth[(#[trigger] roads_queue@[k1]) as int]
                    <= depth[(#[trigger] roads_queue@[k2]) as int] <= depth[roads_queue@[k1] as int]
                    + 1,
            forall|x: int, k: int|
                #[trigger] processed.contains(x) && 0 <= k < roads_queue@.len() ==> depth[x]
                    <= depth[(#[trigger] roads_queue@[k]) as int],
            processed.finite(),
            processed.subset_of(set_int_range(0, n as int)),
            open_spots_per_road@[start as int]@.len() > 0 ==> roads_queue@ =~= seq![start],
        ensures
            roads_queue@.len() == 0,
            open_spots_per_road@ == old(open_spots_per_road)@,
        decreases n - processed.len(),
    {
        if roads_queue.len() == 0 {
            break ;
        }
        proof {
            vstd::set_lib::lemma_int_range(0, n as int);
            vstd::set_lib::lemma_len_subset(processed, set_int_range(0, n as int));
        }
        let ghost old_q = roads_queue@;
        let r_opt = roads_queue.pop_front();
        let r = r_opt.unwrap();
        proof {
            assert(old_q[0] == r);
            assert(old_q.contains(r));
            assert(r < n && visited@[r as int]);
            assert(reachable(*map, start, r));
            assert forall|x: usize| #[trigger] roads_queue@.contains(x) implies old_q.contains(x)
                && x != r by {
                let k = choose|k: int| 0 <= k < roads_queue@.len() && roads_queue@[k] == x;
                assert(old_q[k + 1] == x);
                assert(old_q.no_duplicates());
            }
            assert forall|x: usize| old_q.contains(x) && x != r implies roads_queue@.contains(
                x,
            ) by {
                let k = choose|k: int| 0 <= k < old_q.len() && old_q[k] == x;
                assert(k != 0);
                assert(roads_queue@[k - 1] == x);
            }
        }
        if open_spots_per_road[r].len() > 0 {
            let ghost before = open_spots_per_road@;
            let spot = pool_pop(open_spots_per_road, r);
            proof {
                assert((r as int) < map.roads@.len());
                assert(reachable(*map, start, r));
                assert(before[r as int]@.len() > 0);
                assert(spot == before[r as int]@.last());
                // The popped road is as close to the building's road, in
                // hops, as any road whose pool still holds a spot.
                assert forall|o: usize, d: int|
                    o < map.roads@.len() && before[o as int]@.len() > 0 && #[trigger]
                hop_dist_at_most(*map, start, o, d) implies hop_dist_at_most(
                    *map,
                    start,
                    r,
                    d,
                ) by {
                    assert(!processed.contains(o as int));
                    let p = choose|p: Seq<usize>|
                        is_road_path(*map, p, start, o) && p.len() <= d + 1;
                    assert(p[p.len() - 1] == o);
                    lemma_bfs_frontier(*map, start, processed, old_q, depth, visited@, p);
                    let i = choose|i: int|
                        0 <= i < p.len() && old_q.contains(#[trigger] p[i]) && depth[p[i] as int]
                            <= i;
                    let kk = choose|kk: int| 0 <= kk < old_q.len() && old_q[kk] == p[i];
                    assert(depth[old_q[0] as int] <= depth[old_q[kk] as int]);
                    assert(depth[r as int] <= i <= d);
                    let pr = choose|pr: Seq<usize>|
                        is_road_path(*map, pr, start, r) && pr.len() <= depth[r as int] + 1;
                    assert(is_road_path(*map, pr, start, r) && pr.len() <= d + 1);
                    assert(hop_dist_at_most(*map, start, r, d));
                }
                assert(popped_spot_from(r as int, b, before, open_spots_per_road@, spot, *map));
                if before[start as int]@.len() > 0 {
                    assert(old_q =~= seq![start]);
                    assert(r == start);
                }
            }
            return Some(spot);
        }
        proof {
            broadcast use vstd::set::group_set_axioms;

            if open_spots_per_road@[start as int]@.len() > 0 {
                assert(old_q =~= seq![start]);
                assert(r == start);
                assert(false);
            }
            assert(open_spots_per_road@[start as int]@.len() == 0);
            assert(!processed.contains(r as int));
            let ghost processed_prev = processed;
            processed = processed.insert(r as int);
            assert(processed.len() == processed_prev.len() + 1);
            vstd::set_lib::lemma_int_range(0, n as int);
            vstd::set_lib::lemma_len_subset(processed, set_int_range(0, n as int));
            assert(visited@[r as int]);
            assert(depth[r as int] >= 0);
            assert forall|kk: int|
                0 <= kk < roads_queue@.len() implies depth[r as int] <= depth[(#[trigger]
            roads_queue@[kk]) as int] <= depth[r as int] + 1 by {
                assert(roads_queue@[kk] == old_q[kk + 1]);
                assert(depth[old_q[0] as int] <= depth[old_q[kk + 1] as int] <= depth[old_q[0] as int]
                    + 1);
            }
            assert forall|kk1: int, kk2: int|
                0 <= kk1 <= kk2 < roads_queue@.len() implies depth[(#[trigger]
            roads_queue@[kk1]) as int] <= depth[(#[trigger] roads_queue@[kk2]) as int] by {
                assert(roads_queue@[kk1] == old_q[kk1 + 1] && roads_queue@[kk2] == old_q[kk2 + 1]);
            }
            assert forall|x: int| #[trigger] processed.contains(x) implies depth[x] <= depth[r as int] by {
                if x != r as int {
                    assert(processed_prev.contains(x));
                    assert(depth[x] <= depth[old_q[0] as int]);
                }
            }
        }
        let ghost dd = depth[r as int];
        let adj = map.get_next_roads(r);
        let mut k: usize = 0;
        while k < adj.len()
            invariant
                map.wf(),
                n == map.roads@.len(),
                b < map.buildings@.len(),
                start == map.buildings@[b as int].road,
                start < n,
                r < n,
                visited@.len() == n,
                open_spots_per_road@ == old(open_spots_per_road)@,
                open_spots_per_road@.len() == n,
                open_spots_per_road@[r as int]@.len() == 0,
                open_spots_per_road@[start as int]@.len() == 0,
                adj@ == map.roads@[r as int].adjacent@,
                k <= adj@.len(),
                visited@[start as int],
                processed.contains(r as int),
                depth[r as int] == dd,
                dd >= 0,
                depth[start as int] == 0,
                forall|x: int|
                    0 <= x < n && #[trigger] visited@[x] ==> 0 <= depth[x] && hop_dist_at_most(
                        *map,
                        start,
                        x as usize,
                        depth[x],
                    ),
                forall|kk: int|
                    0 <= kk < roads_queue@.len() ==> dd <= depth[(#[trigger] roads_queue@[kk]) as int]
                        <= dd + 1,
                forall|kk1: int, kk2: int|
                    0 <= kk1 <= kk2 < roads_queue@.len() ==> depth[(#[trigger]
                    roads_queue@[kk1]) as int] <= depth[(#[trigger] roads_queue@[kk2]) as int],
                forall|x: int| #[trigger] processed.contains(x) ==> depth[x] <= dd,
                forall|j: int|
                    0 <= j < k ==> visited@[(#[trigger] adj@[j]) as int] && depth[adj@[j] as int]
                        <= dd + 1,
                forall|kk: int|
                    0 <= kk < roads_queue@.len() ==> (#[trigger] roads_queue@[kk]) < n
                        && visited@[roads_queue@[kk] as int],
                roads_queue@.no_duplicates(),
                forall|kk: int|
                    0 <= kk < roads_queue@.len() ==> !processed.contains(
                        (#[trigger] roads_queue@[kk]) as int,
                    ),
                forall|x: usize|
                    x < n ==> ((#[trigger] visited@[x as int]) <==> processed.contains(x as int)
                        || roads_queue@.contains(x)),
                forall|x: int|
                    0 <= x < n && #[trigger] visited@[x] ==> reachable(*map, start, x as usize),
                forall|x: int|
                    #[trigger] processed.contains(x) ==> 0 <= x < n
                        && open_spots_per_road@[x]@.len() == 0,
                forall|x: int, kk: int|
                    #[trigger] processed.contains(x) && x != r as int && 0 <= kk < map.roads@[x].adjacent@.len()
                        ==> visited@[(#[trigger] map.roads@[x].adjacent@[kk]) as int]
                        && depth[map.roads@[x].adjacent@[kk] as int] <= depth[x] + 1,
                processed.finite(),
                processed.subset_of(set_int_range(0, n as int)),
            decreases adj@.len() - k,
        {
            let nr = adj[k];
            assert(nr < n);
            proof {
                assert(visited@[r as int]);
                assert(reachable(*map, start, r));
                assert(map.roads@[r as int].adjacent@[k as int] == nr);
                assert(map.roads@[r as int].adjacent@.contains(nr));
            }
            if !visited[nr] {
                let ghost q_prev = roads_queue@;
                roads_queue.push_back(nr);
                visited.set(nr, true);
                proof {
                    lemma_reachable_step(*map, start, r, nr);
                    assert(hop_dist_at_most(*map, start, r, dd));
                    lemma_hop_step(*map, start, r, nr, dd);
                    depth = depth.insert(nr as int, dd + 1);
                    assert(depth[nr as int] == dd + 1);
                    assert(depth[r as int] == dd);
                    assert(depth[start as int] == 0);
                    assert(!q_prev.contains(nr));
                    assert(roads_queue@ =~= q_prev.push(nr));
                    assert(roads_queue@[roads_queue@.len() - 1] == nr);
                    assert(roads_queue@.contains(nr));
                    assert forall|x: usize| #[trigger] roads_queue@.contains(x) implies (
                    q_prev.contains(x) || x == nr) by {
                        let kk = choose|kk: int|
                            0 <= kk < roads_queue@.len() && roads_queue@[kk] == x;
                        if kk < roads_queue@.len() - 1 {
                            assert(q_prev[kk] == x);
                        }
                    }
                    assert forall|x: usize| #[trigger] q_prev.contains(x) implies roads_queue@.contains(
                        x,
                    ) by {
                        let kk = choose|kk: int| 0 <= kk < q_prev.len() && q_prev[kk] == x;
                        assert(roads_queue@[kk] == x);
                    }
                    assert forall|i: int, j: int|
                        0 <= i < roads_queue@.len() && 0 <= j < roads_queue@.len() && i
                            != j implies roads_queue@[i] != roads_queue@[j] by {
                        if i < roads_queue@.len() - 1 && j < roads_queue@.len() - 1 {
                            assert(q_prev[i] == roads_queue@[i] && q_prev[j] == roads_queue@[j]);
                        } else if j == roads_queue@.len() - 1 && i < j {
                            assert(q_prev.contains(q_prev[i]));
                        } else if i == roads_queue@.len() - 1 && j < i {
                            assert(q_prev.contains(q_prev[j]));
                        }
                    }
                    assert(roads_queue@.no_duplicates());
                    assert forall|kk: int|
                        0 <= kk < roads_queue@.len() implies dd <= depth[(#[trigger]
                    roads_queue@[kk]) as int] <= dd + 1 by {
                        if kk < roads_queue@.len() - 1 {
                            assert(roads_queue@[kk] == q_prev[kk]);
                            assert(q_prev[kk] != nr);
                        }
                    }
                    assert forall|kk1: int, kk2: int|
                        0 <= kk1 <= kk2 < roads_queue@.len() implies depth[(#[trigger]
                    roads_queue@[kk1]) as int] <= depth[(#[trigger] roads_queue@[kk2]) as int] by {
                        if kk2 < roads_queue@.len() - 1 {
                            assert(roads_queue@[kk1] == q_prev[kk1]
                                && roads_queue@[kk2] == q_prev[kk2]);
                            assert(q_prev[kk1] != nr && q_prev[kk2] != nr);
                        } else if kk1 < roads_queue@.len() - 1 {
                            assert(roads_queue@[kk1] == q_prev[kk1]);
                            assert(q_prev[kk1] != nr);
                            assert(depth[roads_queue@[kk1] as int] <= dd + 1);
                        }
                    }
                    assert forall|x: int|
                        0 <= x < n && #[trigger] visited@[x] implies 0 <= depth[x]
                        && hop_dist_at_most(*map, start, x as usize, depth[x]) by {
                        if x == nr as int {
                            assert(depth[x] == dd + 1);
                            assert(hop_dist_at_most(*map, start, nr, dd + 1));
                        } else {
                            assert(x != nr as int);
                        }
                    }
                    assert forall|x: int| #[trigger] processed.contains(x) implies depth[x]
                        <= dd by {
                        assert(x != nr as int);
                    }
                    assert forall|x: int, kk: int|
                        #[trigger] processed.contains(x) && x != r as int && 0 <= kk
                            < map.roads@[x].adjacent@.len() implies visited@[(#[trigger]
                    map.roads@[x].adjacent@[kk]) as int] && depth[map.roads@[x].adjacent@[kk] as int]
                        <= depth[x] + 1 by {
                        assert(map.roads@[x].adjacent@[kk] != nr);
                        assert(x != nr as int);
                    }
                }
            } else {
                proof {
                    assert(visited@[nr as int]);
                    assert(processed.contains(nr as int) || roads_queue@.contains(nr));
                    if roads_queue@.contains(nr) {
                        let kk = choose|kk: int|
                            0 <= kk < roads_queue@.len() && roads_queue@[kk] == nr;
                        assert(dd <= depth[roads_queue@[kk] as int] <= dd + 1);
                    }
                    assert(depth[nr as int] <= dd + 1);
                }
            }
            k = k + 1;
        }
        proof {
            assert forall|x: int, kk: int|
                #[trigger] processed.contains(x) && 0 <= kk < map.roads@[x].adjacent@.len() implies visited@[(
            #[trigger] map.roads@[x].adjacent@[kk]) as int] && depth[map.roads@[x].adjacent@[kk] as int]
                <= depth[x] + 1 by {
                if x == r as int {
                    assert(visited@[adj@[kk] as int]);
                    assert(depth[adj@[kk] as int] <= dd + 1);
                }
            }
        }
    }
    proof {
        let closed = Set::new(|x: usize| x < n && visited@[x as int]);
        assert forall|road: usize|
            road < map.roads@.len() && reachable(*map, map.buildings@[b as int].road, road) implies (
        #[trigger] old(open_spots_per_road)@[road as int])@.len() == 0 by {
            let path = choose|p: Seq<usize>|
                is_road_path(*map, p, map.buildings@[b as int].road, road);
            assert(closed.contains(start));
            assert forall|x: usize, kk: int|
                closed.contains(x) && x < map.roads@.len() && 0 <= kk < map.roads@[x as int].adjacent@.len() implies closed.contains(
                #[trigger] map.roads@[x as int].adjacent@[kk],
            ) by {
                assert(visited@[x as int]);
                assert(processed.contains(x as int) || roads_queue@.contains(x));
                assert(processed.contains(x as int));
                assert(visited@[map.roads@[x as int].adjacent@[kk] as int]);
                assert(map.roads@[x as int].adjacent@[kk] < n);
            }
            lemma_path_in_closed(*map, closed, path, start, road);
            assert(visited@[road as int]);
            assert(processed.contains(road as int));
        }
    }
    None
}

/// The spots of a list of assignments, in order.
pub open spec fn assigned_spots(s: Seq<(CarID, ParkingSpot)>) -> Seq<ParkingSpot> {
    s.map_values(|p: (CarID, ParkingSpot)| p.1)
}

/// One assignment answers one requested (car, building) pair: same car, and
/// a spot on a road reachable from that building's road.
pub open spec fn assignment_ok(
    pair: (CarID, ParkingSpot),
    parked_cars: Seq<(CarID, usize)>,
    map: RoadNetwork,
) -> bool {
    exists|j: int|
        0 <= j < parked_cars.len() && (#[trigger] parked_cars[j]).0 == pair.0 && reachable(
            map,
            map.buildings@[parked_cars[j].1 as int].road,
            pair.1.spec_road(map),
        )
}

/// The allocation served the batch in the order `order`: the first
/// assignments answer its pairs one by one (same car, a spot reachable from
/// the pair's building), and service only stops short when the batch
/// provably exceeded supply — the first unserved pair's building cannot
/// reach enough free spots for the whole batch.
pub open spec fn allocation_follows(
    order: Seq<(CarID, usize)>,
    assigned: Seq<(CarID, ParkingSpot)>,
    free: Seq<ParkingSpot>,
    map: RoadNetwork,
) -> bool {
    &&& assigned.len() <= order.len()
    &&& forall|k: int|
        0 <= k < assigned.len() ==> (#[trigger] assigned[k]).0 == order[k].0 && reachable(
            map,
            map.buildings@[order[k].1 as int].road,
            assigned[k].1.spec_road(map),
        )
    &&& (assigned.len() < order.len() ==> free_reachable_count(
        map,
        map.buildings@[order[assigned.len() as int].1 as int].road,
        free,
    ) < order.len())
}

/// Seed every initially-parked car. Setup: group the free spots by owning
/// road and shuffle each road's pool on its own forked generator, so that
/// changing one road's pool never perturbs another road's order; then
/// shuffle the batch itself directly on the base generator (its length does
/// not depend on map topology). Each pair then gets a spot by breadth-first
/// search from its building's road. The first pair that finds no spot is a
/// hard capacity signal: no later pair is attempted, though the remainder is
/// still iterated for bookkeeping.
///
/// Every assignment hands out a distinct spot from the free inventory, on a
/// road reachable from the requested building's road; some ordering of the
/// batch (the shuffled one) is served pair by pair, cut short only by
/// demonstrated lack of capacity; and when every requested building can
/// reach at least as many free spots as the batch has pairs, every pair is
/// served.
#[verifier::rlimit(100)]
pub fn seed_parked_cars(
    parked_cars: Vec<(CarID, usize)>,
    free_spots: Vec<ParkingSpot>,
    map: &RoadNetwork,
    base_rng: &mut XorShiftRng,
) -> (assigned: Vec<(CarID, ParkingSpot)>)
    requires
        map.wf(),
        forall|j: int|
            0 <= j < parked_cars@.len() ==> (#[trigger] parked_cars@[j]).1 < map.buildings@.len(),
        forall|j: int| 0 <= j < free_spots@.len() ==> (#[trigger] free_spots@[j]).wf(*map),
        free_spots@.no_duplicates(),
    ensures
        assigned@.len() <= parked_cars@.len(),
        forall|k: int|
            0 <= k < assigned@.len() ==> free_spots@.contains((#[trigger] assigned@[k]).1)
                && assigned@[k].1.wf(*map),
        forall|k: int|
            0 <= k < assigned@.len() ==> assignment_ok(#[trigger] assigned@[k], parked_cars@, *map),
        assigned_spots(assigned@).no_duplicates(),
        exists|order: Seq<(CarID, usize)>|
            order.to_multiset() == parked_cars@.to_multiset() && #[trigger] allocation_follows(
                order,
                assigned@,
                free_spots@,
                *map,
            ),
        (forall|j: int|
            0 <= j < parked_cars@.len() ==> free_reachable_count(
                *map,
                map.buildings@[(#[trigger] parked_cars@[j]).1 as int].road,
                free_spots@,
            ) >= parked_cars@.len()) ==> assigned@.len() == parked_cars@.len(),
{
    let mut open_spots_per_road = group_spots(&free_spots, map);
    let n = map.roads.len();
    // Changing parking on one road shouldn't affect far-off roads: fork
    // one generator per road.
    let mut r: usize = 0;
    while r < n
        invariant
            map.wf(),
            n == map.roads@.len(),
            open_spots_per_road@.len() == n,
            r <= n,
            forall|q: int| 0 <= q < n ==> pool_ok((#[trigger] open_spots_per_road@[q])@, q, *map),
            pools_multiset(open_spots_per_road@) =~= free_spots@.to_multiset(),
        decreases n - r,
    {
        let mut tmp_rng = fork_rng(base_rng);
        let ghost prev = open_spots_per_road@;
        pool_shuffle(&mut open_spots_per_road, r, &mut tmp_rng);
        proof {
            broadcast use vstd::multiset::group_multiset_axioms;

            lemma_pools_multiset_update(prev, r as int, open_spots_per_road@[r as int]);
            assert forall|x: ParkingSpot|
                pools_multiset(open_spots_per_road@).count(x) == pools_multiset(prev).count(
                    x,
                ) by {
                assert(pools_multiset(open_spots_per_road@).add(
                    prev[r as int]@.to_multiset(),
                ).count(x) == pools_multiset(prev).add(
                    open_spots_per_road@[r as int]@.to_multiset(),
                ).count(x));
                assert(open_spots_per_road@[r as int]@.to_multiset().count(x)
                    == prev[r as int]@.to_multiset().count(x));
            }
            assert(pools_multiset(open_spots_per_road@) =~= pools_multiset(prev));
            lemma_pool_ok_multiset(
                prev[r as int]@,
                open_spots_per_road@[r as int]@,
                r as int,
                *map,
            );
            assert forall|q: int| 0 <= q < n implies pool_ok(
                (#[trigger] open_spots_per_road@[q])@,
                q,
                *map,
            ) by {
                if q != r as int {
                    assert(open_spots_per_road@[q] == prev[q]);
                }
            }
        }
        r = r + 1;
    }
    // The batch is stable over map edits, so don't fork for this shuffle.
    let mut cars = parked_cars;
    shuffle_vec(&mut cars, base_rng);
    let mut assigned: Vec<(CarID, ParkingSpot)> = Vec::new();
    let mut ok = true;
    let mut i: usize = 0;
    proof {
        broadcast use vstd::multiset::group_multiset_axioms;

        assert(assigned_spots(assigned@) =~= Seq::<ParkingSpot>::empty());
        assigned_spots(assigned@).to_multiset_ensures();
        vstd::multiset::lemma_multiset_empty_len(assigned_spots(assigned@).to_multiset());
    }
    while i < cars.len()
        invariant
            map.wf(),
            n == map.roads@.len(),
            open_spots_per_road@.len() == n,
            forall|q: int| 0 <= q < n ==> pool_ok((#[trigger] open_spots_per_road@[q])@, q, *map),
            cars@.to_multiset() == parked_cars@.to_multiset(),
            cars@.len() == parked_cars@.len(),
            forall|j: int|
                0 <= j < parked_cars@.len() ==> (#[trigger] parked_cars@[j]).1
                    < map.buildings@.len(),
            forall|j: int| 0 <= j < free_spots@.len() ==> (#[trigger] free_spots@[j]).wf(*map),
            free_spots@.no_duplicates(),
            i <= cars@.len(),
            assigned@.len() <= i,
            assigned_spots(assigned@).to_multiset().add(pools_multiset(open_spots_per_road@))
                =~= free_spots@.to_multiset(),
            forall|k: int|
                0 <= k < assigned@.len() ==> free_spots@.contains((#[trigger] assigned@[k]).1)
                    && assigned@[k].1.wf(*map),
            forall|k: int|
                0 <= k < assigned@.len() ==> assignment_ok(
                    #[trigger] assigned@[k],
                    parked_cars@,
                    *map,
                ),
            ok ==> assigned@.len() == i,
            forall|k: int|
                0 <= k < assigned@.len() ==> (#[trigger] assigned@[k]).0 == cars@[k].0
                    && reachable(
                    *map,
                    map.buildings@[cars@[k].1 as int].road,
                    assigned@[k].1.spec_road(*map),
                ),
            !ok ==> assigned@.len() < cars@.len() && free_reachable_count(
                *map,
                map.buildings@[cars@[assigned@.len() as int].1 as int].road,
                free_spots@,
            ) < cars@.len(),
        decreases cars@.len() - i,
    {
        if ok {
            let pair = cars[i];
            let car = pair.0;
            let b = pair.1;
            proof {
                broadcast use vstd::seq_lib::group_to_multiset_ensures;

                assert(cars@.contains(cars@[i as int]));
                assert(cars@.to_multiset().count(cars@[i as int]) > 0);
                assert(parked_cars@.contains(cars@[i as int]));
            }
            let ghost jw = choose|j: int|
                0 <= j < parked_cars@.len() && parked_cars@[j] == cars@[i as int];
            assert(b < map.buildings.len());
            let ghost pools_prev = open_spots_per_road@;
            let ghost assigned_prev = assigned@;
            let found = find_spot_near_building(b, &mut open_spots_per_road, map);
            match found {
                Some(spot) => {
                    proof {
                        broadcast use vstd::multiset::group_multiset_axioms;
                        broadcast use vstd::seq_lib::group_to_multiset_ensures;

                        let rd = choose|road: int|
                            popped_spot_from(
                                road,
                                b,
                                pools_prev,
                                open_spots_per_road@,
                                spot,
                                *map,
                            );
                        assert(popped_spot_from(
                            rd,
                            b,
                            pools_prev,
                            open_spots_per_road@,
                            spot,
                            *map,
                        ));
                        lemma_pools_multiset_pointwise(pools_prev, open_spots_per_road@, rd);
                        assert(pools_prev[rd]@ =~= open_spots_per_road@[rd]@.push(spot));
                        assert(pools_prev[rd]@.to_multiset() == open_spots_per_road@[rd]@.to_multiset().insert(
                            spot,
                        ));
                        assert forall|x: ParkingSpot|
                            pools_multiset(pools_prev).count(x) == pools_multiset(
                                open_spots_per_road@,
                            ).count(x) + (if x == spot {
                                1int
                            } else {
                                0
                            }) by {
                            assert(pools_multiset(open_spots_per_road@).add(
                                pools_prev[rd]@.to_multiset(),
                            ).count(x) == pools_multiset(pools_prev).add(
                                open_spots_per_road@[rd]@.to_multiset(),
                            ).count(x));
                        }
                        // The popped spot was still in the inventory.
                        assert(pools_multiset(pools_prev).count(spot) >= 1);
                        assert(free_spots@.to_multiset().count(spot) >= 1);
                        assert(free_spots@.contains(spot));
                        // It is well-formed and sits on road `rd`.
                        assert(pools_prev[rd]@[pools_prev[rd]@.len() - 1] == spot);
                        assert(pool_ok(pools_prev[rd]@, rd, *map));
                        assert(spot.wf(*map) && spot.spec_road(*map) == rd);
                        assert(parked_cars@[jw].0 == car && parked_cars@[jw].1 == b);
                    }
                    assigned.push((car, spot));
                    proof {
                        broadcast use vstd::multiset::group_multiset_axioms;
                        broadcast use vstd::seq_lib::group_to_multiset_ensures;

                        assert(assigned_spots(assigned@) =~= assigned_spots(assigned_prev).push(
                            spot,
                        ));
                        assert(assigned_spots(assigned@).to_multiset() == assigned_spots(
                            assigned_prev,
                        ).to_multiset().insert(spot));
                        assert forall|x: ParkingSpot|
                            assigned_spots(assigned@).to_multiset().add(
                                pools_multiset(open_spots_per_road@),
                            ).count(x) == free_spots@.to_multiset().count(x) by {
                            assert(assigned_spots(assigned_prev).to_multiset().add(
                                pools_multiset(pools_prev),
                            ).count(x) == free_spots@.to_multiset().count(x));
                        }
                        assert(assigned_spots(assigned@).to_multiset().add(
                            pools_multiset(open_spots_per_road@),
                        ) =~= free_spots@.to_multiset());
                        assert(parked_cars@[jw] == cars@[i as int]);
                        assert(parked_cars@[jw].0 == car && parked_cars@[jw].1 == b);
                        assert(reachable(
                            *map,
                            map.buildings@[parked_cars@[jw].1 as int].road,
                            spot.spec_road(*map),
                        ));
                        assert(assignment_ok((car, spot), parked_cars@, *map));
                        assert forall|k: int| 0 <= k < assigned@.len() implies assignment_ok(
                            #[trigger] assigned@[k],
                            parked_cars@,
                            *map,
                        ) by {
                            if k < assigned_prev.len() {
                                assert(assigned@[k] == assigned_prev[k]);
                                assert(assignment_ok(assigned_prev[k], parked_cars@, *map));
                            } else {
                                assert(assigned@[k] == (car, spot));
                            }
                        }
                        assert(assigned_prev.len() == i);
                        assert forall|k: int|
                            0 <= k < assigned@.len() implies (#[trigger] assigned@[k]).0
                            == cars@[k].0 && reachable(
                            *map,
                            map.buildings@[cars@[k].1 as int].road,
                            assigned@[k].1.spec_road(*map),
                        ) by {
                            if k < assigned_prev.len() {
                                assert(assigned@[k] == assigned_prev[k]);
                            } else {
                                assert(assigned@[k] == (car, spot));
                                assert(cars@[k] == cars@[i as int]);
                            }
                        }
                    }
                },
                None => {
                    proof {
                        broadcast use vstd::multiset::group_multiset_axioms;
                        broadcast use vstd::seq_lib::group_to_multiset_ensures;

                        let broad = map.buildings@[b as int].road;
                        let pred = |s: ParkingSpot| reachable(*map, broad, s.spec_road(*map));
                        lemma_free_reachable_count_filter(*map, broad, free_spots@, pred);
                        lemma_seq_filter_to_multiset(free_spots@, pred);
                        free_spots@.filter(pred).to_multiset_ensures();
                        // No spot left in any pool lies on a road reachable
                        // from this building: such a pool would be nonempty.
                        assert(pools_multiset(open_spots_per_road@).filter(pred).len() == 0) by {
                            if pools_multiset(open_spots_per_road@).filter(pred).len() != 0 {
                                let x = pools_multiset(open_spots_per_road@).filter(pred).choose();
                                assert(pools_multiset(open_spots_per_road@).filter(pred).count(x)
                                    > 0);
                                assert(pools_multiset(open_spots_per_road@).count(x) > 0
                                    && pred(x));
                                lemma_pools_multiset_member(open_spots_per_road@, x);
                                let rx = choose|rx: int|
                                    0 <= rx < open_spots_per_road@.len() && (#[trigger]
                                    open_spots_per_road@[rx])@.contains(x);
                                assert(pool_ok(open_spots_per_road@[rx]@, rx, *map));
                                let ix = choose|ix: int|
                                    0 <= ix < open_spots_per_road@[rx]@.len()
                                        && open_spots_per_road@[rx]@[ix] == x;
                                assert(x.spec_road(*map) == rx);
                                assert(reachable(*map, broad, rx as usize));
                                assert(open_spots_per_road@[rx as usize as int]@.len() == 0);
                                assert(false);
                            }
                        }
                        // Every reachable free spot is therefore already
                        // assigned, and at most one car was served per turn.
                        assert forall|x: ParkingSpot|
                            free_spots@.to_multiset().filter(pred).count(x) == assigned_spots(
                                assigned@,
                            ).to_multiset().filter(pred).add(
                                pools_multiset(open_spots_per_road@).filter(pred),
                            ).count(x) by {
                            assert(free_spots@.to_multiset().count(x) == assigned_spots(
                                assigned@,
                            ).to_multiset().add(pools_multiset(open_spots_per_road@)).count(x));
                        }
                        assert(free_spots@.to_multiset().filter(pred) =~= assigned_spots(
                            assigned@,
                        ).to_multiset().filter(pred).add(
                            pools_multiset(open_spots_per_road@).filter(pred),
                        ));
                        lemma_multiset_filter_len_le(assigned_spots(assigned@).to_multiset(), pred);
                        assigned_spots(assigned@).to_multiset_ensures();
                        assert(free_reachable_count(*map, broad, free_spots@) <= assigned@.len());
                        assert(assigned@.len() == i && i < cars@.len());
                        assert(cars@[i as int].1 == b);
                    }
                    ok = false;
                },
            }
        }
        i = i + 1;
    }
    proof {
        broadcast use vstd::multiset::group_multiset_axioms;
        broadcast use vstd::seq_lib::group_to_multiset_ensures;

        free_spots@.lemma_multiset_has_no_duplicates();
        assert forall|x: ParkingSpot|
            assigned_spots(assigned@).to_multiset().contains(x) implies assigned_spots(
            assigned@,
        ).to_multiset().count(x) == 1 by {
            assert(assigned_spots(assigned@).to_multiset().add(
                pools_multiset(open_spots_per_road@),
            ).count(x) == free_spots@.to_multiset().count(x));
            assert(free_spots@.to_multiset().count(x) > 0);
            assert(free_spots@.contains(x));
        }
        assigned_spots(assigned@).lemma_multiset_has_no_duplicates_conv();
        // The shuffled batch is the order in which pairs were served.
        assert(allocation_follows(cars@, assigned@, free_spots@, *map));
        assert(exists|order: Seq<(CarID, usize)>|
            order.to_multiset() == parked_cars@.to_multiset() && #[trigger] allocation_follows(
                order,
                assigned@,
                free_spots@,
                *map,
            ));
        // With enough reachable supply for every requested building, no
        // pair goes unserved.
        if forall|j: int|
            0 <= j < parked_cars@.len() ==> free_reachable_count(
                *map,
                map.buildings@[(#[trigger] parked_cars@[j]).1 as int].road,
                free_spots@,
            ) >= parked_cars@.len() {
            if assigned@.len() < parked_cars@.len() {
                let a = assigned@.len() as int;
                assert(cars@.contains(cars@[a]));
                assert(cars@.to_multiset().count(cars@[a]) > 0);
                assert(parked_cars@.contains(cars@[a]));
                let j = choose|j: int|
                    0 <= j < parked_cars@.len() && parked_cars@[j] == cars@[a];
                assert(free_reachable_count(
                    *map,
                    map.buildings@[parked_cars@[j].1 as int].road,
                    free_spots@,
                ) >= parked_cars@.len());
                assert(parked_cars@[j].1 == cars@[a].1);
                assert(false);
            }
        }
    }
    assigned
}

} // verus!
