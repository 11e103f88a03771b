//! The recharge planner: legs of bounded length from start to end, every leg
//! but the last ending on a recharge polygon.

use super::bounded_astar::{
    bounded_astar, goal_fits, is_scored_path, lemma_scored_path_cost, path_nodes, GoalTest,
    Heuristic,
};
use super::goals::{
    is_water_of, lemma_straight_distance_admissible, lemma_straight_distance_consistent,
    lemma_straight_distance_usable, EuclideanTo, ReachNode, ReachWater,
};
use super::graph_types::{lemma_edge_length_is_distance, NavGraph};
use super::paths::{lemma_reachable_from_reached, lemma_reachable_self};
use crate::coord_ext::{distance_squared, euclidean_distance_floor_spec, euclidean_distance_spec};
use crate::geometry::Coordinate;
use crate::line_string_ratio::{line_string_point_at_length, point_at_length, polyline_length};
use crate::mpi::{all_mpis, lemma_all_mpis, Mpi, MpiCoordsIterable};
use vstd::pervasive::unreached;
use vstd::prelude::*;

verus! {

/// Why no plan was made.
#[derive(Debug, Clone, Copy, PartialEq, Eq, Structural)]
pub enum PlannerError {
    /// No path leads from the start to the end.
    NoPathToEnd,
    /// From where a leg starts, no recharge polygon can be reached within
    /// range.
    NoPathToWater,
    /// The planner came back to where it had recharged before.
    LoopDetected,
}

impl PlannerError {
    /// The name of the error.
    pub fn name(&self) -> (s: &'static str)
        ensures
            s@ == match self {
                PlannerError::NoPathToEnd => "NoPathToEnd"@,
                PlannerError::NoPathToWater => "NoPathToWater"@,
                PlannerError::LoopDetected => "LoopDetected"@,
            },
    {
        match self {
            PlannerError::NoPathToEnd => "NoPathToEnd",
            PlannerError::NoPathToWater => "NoPathToWater",
            PlannerError::LoopDetected => "LoopDetected",
        }
    }
}

/// One flight between recharges: the path flown, each node with the cost it
/// is reached at, and the point that the vehicle was heading for. For the
/// last leg that point is the end; for every other leg it is the farthest
/// point in range on the shortest path to the end.
#[derive(Debug)]
pub struct Leg {
    pub last_reachable: Coordinate,
    pub path: Vec<(usize, u64)>,
}

/// The coordinates of the nodes of a path.
pub open spec fn coords_along(graph: NavGraph, nodes: Seq<int>) -> Seq<Coordinate> {
    nodes.map_values(|n: int| graph.coord_of(n))
}

/// The range of leg `i`: the initial range for the first leg, the range
/// after a recharge for every later one.
pub open spec fn leg_budget(max_distance_initially: u64, max_distance_after_charge: u64, i: int) -> u64 {
    if i == 0 {
        max_distance_initially
    } else {
        max_distance_after_charge
    }
}

/// Where leg `i` starts: the first at `start`, every later one where the leg
/// before it ended.
pub open spec fn leg_start_of(start: int, legs: Seq<Leg>, i: int) -> int {
    if i == 0 {
        start
    } else {
        legs[i - 1].path@[legs[i - 1].path@.len() - 1].0 as int
    }
}

/// `q` is a path from `from` to `to` that no other such path undercuts.
#[verifier::opaque]
pub open spec fn is_shortest(graph: NavGraph, q: Seq<int>, from: int, to: int) -> bool {
    &&& graph.connects(q, from, to)
    &&& forall|p: Seq<int>| #[trigger] graph.connects(p, from, to) ==> graph.path_cost(q)
        <= graph.path_cost(p)
}

/// `leg` is a last leg: a shortest path from `leg_start` to `end`, within
/// `budget`.
#[verifier::opaque]
pub open spec fn is_final_leg(graph: NavGraph, leg_start: int, end: int, budget: u64, leg: Leg) -> bool {
    let last = leg.path@[leg.path@.len() - 1];
    &&& is_scored_path(graph, leg_start, leg.path@)
    &&& last.0 == end
    &&& leg.last_reachable == graph.coord_of(end)
    &&& last.1 <= budget
    &&& graph.path_cost(path_nodes(leg.path@)) == last.1
    &&& is_shortest(graph, path_nodes(leg.path@), leg_start, end)
}

/// `leg` is a leg to a recharge: the end is out of range, the leg heads for
/// the point that lies `budget` along a shortest path to it, and ends on a
/// vertex of a recharge polygon other than where it started, reached at no
/// more than the initial range. The polygon is that of the first candidate
/// whose polygon is in reach, the vertex one for which cost plus straight
/// distance to that candidate is least, and the cost recorded at the vertex
/// is the length of the leg.
#[verifier::opaque]
pub open spec fn is_recharge_leg(
    graph: NavGraph,
    leg_start: int,
    end: int,
    budget: u64,
    max_distance_initially: u64,
    leg: Leg,
) -> bool {
    let last = leg.path@[leg.path@.len() - 1];
    &&& is_scored_path(graph, leg_start, leg.path@)
    &&& graph.nodes()[last.0 as int] is PartOfWater
    &&& last.0 != leg_start
    &&& graph.path_cost(path_nodes(leg.path@)) == last.1
    &&& last.1 <= max_distance_initially
    &&& heads_for(graph, leg_start, end, budget, leg.last_reachable)
    &&& is_first_in_reach(
        graph,
        leg_start,
        recharge_candidates(graph, graph.coord_of(leg_start), budget, leg.last_reachable),
        max_distance_initially,
        graph.nodes()[last.0 as int]->PartOfWater_0.polygon_index,
    )
    &&& is_nearest_of_first(
        graph,
        leg_start,
        recharge_candidates(graph, graph.coord_of(leg_start), budget, leg.last_reachable),
        max_distance_initially,
        last,
    )
}

/// The end is out of range, and `point` lies `budget` along a shortest path
/// from `from` to it.
#[verifier::opaque]
pub open spec fn heads_for(graph: NavGraph, from: int, end: int, budget: u64, point: Coordinate) -> bool {
    exists|q: Seq<int>|
        #![trigger graph.path_cost(q)]
        is_shortest(graph, q, from, end) && graph.path_cost(q) > budget && point == point_at_length(
            coords_along(graph, q),
            budget as int,
        )
}

/// `node` is a vertex of the recharge polygon `polygon_index`.
pub open spec fn is_water_node(graph: NavGraph, node: int, polygon_index: usize) -> bool {
    0 <= node < graph.nodes().len() && is_water_of(graph.nodes()[node], polygon_index)
}

/// Some vertex of the recharge polygon `polygon_index` can be reached from
/// `from` at a cost of no more than `range`.
pub open spec fn polygon_in_reach(graph: NavGraph, from: int, polygon_index: usize, range: u64) -> bool {
    exists|p: Seq<int>| #[trigger]
        graph.is_path(p) && p[0] == from && is_water_node(graph, p[p.len() - 1], polygon_index)
            && graph.path_cost(p) <= range
}

/// `chosen` is the polygon of the first candidate whose polygon is in reach
/// of `from`.
#[verifier::opaque]
pub open spec fn is_first_in_reach(
    graph: NavGraph,
    from: int,
    candidates: Seq<RechargePoint>,
    range: u64,
    chosen: usize,
) -> bool {
    exists|k: int|
        0 <= k < candidates.len() && (#[trigger] candidates[k]).mpi.polygon_index == chosen
            && polygon_in_reach(graph, from, chosen, range) && none_in_reach(
            graph,
            from,
            candidates.take(k),
            range,
        )
}

/// The node `reached`, with the cost it is reached at, is a vertex of the
/// polygon of `candidate`, and of all vertices of that polygon in reach of
/// `from` one for which the cost of reaching it plus its straight distance to
/// the candidate, in whole units rounded down, is least.
pub open spec fn is_nearest_recharge(
    graph: NavGraph,
    from: int,
    candidate: RechargePoint,
    range: u64,
    reached: (usize, u64),
) -> bool {
    &&& is_water_node(graph, reached.0 as int, candidate.mpi.polygon_index)
    &&& forall|p: Seq<int>| #[trigger]
        graph.is_path(p) && p[0] == from && is_water_node(
            graph,
            p[p.len() - 1],
            candidate.mpi.polygon_index,
        ) && graph.path_cost(p) <= range ==> reached.1 + euclidean_distance_floor_spec(
            graph.coord_of(reached.0 as int),
            candidate.coord,
        ) <= graph.path_cost(p) + euclidean_distance_floor_spec(
            graph.coord_of(p[p.len() - 1]),
            candidate.coord,
        )
}

/// `reached` is the nearest vertex, by cost plus straight distance, to the
/// first candidate whose polygon is in reach of `from`.
#[verifier::opaque]
pub open spec fn is_nearest_of_first(
    graph: NavGraph,
    from: int,
    candidates: Seq<RechargePoint>,
    range: u64,
    reached: (usize, u64),
) -> bool {
    exists|k: int|
        0 <= k < candidates.len() && none_in_reach(graph, from, candidates.take(k), range)
            && is_nearest_recharge(graph, from, #[trigger] candidates[k], range, reached)
}

/// The polygon of no candidate is in reach of `from`.
#[verifier::opaque]
pub open spec fn none_in_reach(graph: NavGraph, from: int, candidates: Seq<RechargePoint>, range: u64) -> bool {
    forall|j: int|
        0 <= j < candidates.len() ==> !polygon_in_reach(
            graph,
            from,
            (#[trigger] candidates[j]).mpi.polygon_index,
            range,
        )
}

/// From `from` the end is out of range and no recharge is in reach.
pub open spec fn is_stranded(
    graph: NavGraph,
    from: int,
    end: int,
    budget: u64,
    max_distance_initially: u64,
) -> bool {
    exists|point: Coordinate|
        #![trigger heads_for(graph, from, end, budget, point)]
        heads_for(graph, from, end, budget, point) && none_in_reach(
            graph,
            from,
            recharge_candidates(graph, graph.coord_of(from), budget, point),
            max_distance_initially,
        )
}

/// From `from` the end is out of range, and the recharge that the planner
/// turns to is the polygon that `from` is a vertex of, or the planner has
/// recharged as often as the graph has nodes.
pub open spec fn is_circling(
    graph: NavGraph,
    from: int,
    end: int,
    budget: u64,
    max_distance_initially: u64,
    recharged: nat,
) -> bool {
    exists|point: Coordinate, chosen: usize| #[trigger]
        turns_to(graph, from, end, budget, max_distance_initially, point, chosen) && (is_water_node(
            graph,
            from,
            chosen,
        ) || recharged == graph.nodes().len())
}

/// From `from` the end is out of range, the planner heads for `point`, and
/// `chosen` is the recharge polygon it turns to.
pub open spec fn turns_to(
    graph: NavGraph,
    from: int,
    end: int,
    budget: u64,
    max_distance_initially: u64,
    point: Coordinate,
    chosen: usize,
) -> bool {
    heads_for(graph, from, end, budget, point) && is_first_in_reach(
        graph,
        from,
        recharge_candidates(graph, graph.coord_of(from), budget, point),
        max_distance_initially,
        chosen,
    )
}

/// `legs` is a plan from `start` to `end`: each leg starts where the one
/// before it ended, every leg but the last is a leg to a recharge, and the
/// last is a last leg.
pub open spec fn is_plan(
    graph: NavGraph,
    max_distance_initially: u64,
    max_distance_after_charge: u64,
    start: int,
    end: int,
    legs: Seq<Leg>,
) -> bool {
    &&& legs.len() >= 1
    &&& forall|i: int|
        0 <= i < legs.len() - 1 ==> is_recharge_leg(
            graph,
            leg_start_of(start, legs, i),
            end,
            leg_budget(max_distance_initially, max_distance_after_charge, i),
            max_distance_initially,
            #[trigger] legs[i],
        )
    &&& is_final_leg(
        graph,
        leg_start_of(start, legs, legs.len() - 1),
        end,
        leg_budget(max_distance_initially, max_distance_after_charge, legs.len() - 1),
        legs[legs.len() - 1],
    )
}

/// A vertex of a recharge polygon that is a candidate for the next recharge,
/// with the square of its distance from the point the vehicle is heading for.
#[derive(Clone, Copy, Debug, PartialEq, Eq, Structural)]
pub struct RechargePoint {
    pub mpi: Mpi,
    pub coord: Coordinate,
    pub key: u128,
}

/// `s` with `x` put in behind every entry whose key is not greater.
pub open spec fn inserted_by_key(s: Seq<RechargePoint>, x: RechargePoint) -> Seq<RechargePoint>
    decreases s.len(),
{
    if s.len() == 0 {
        seq![x]
    } else if x.key < s.last().key {
        inserted_by_key(s.drop_last(), x).push(s.last())
    } else {
        s.push(x)
    }
}

/// The entries of `s` by ascending key, entries of equal key in the order
/// they have in `s`.
pub open spec fn sorted_by_key(s: Seq<RechargePoint>) -> Seq<RechargePoint>
    decreases s.len(),
{
    if s.len() == 0 {
        s
    } else {
        inserted_by_key(sorted_by_key(s.drop_last()), s.last())
    }
}

/// Inserting by key keeps every entry, adds the new one, and keeps the keys
/// ascending.
pub proof fn lemma_inserted_by_key(s: Seq<RechargePoint>, x: RechargePoint)
    requires
        forall|i: int, j: int| 0 <= i < j < s.len() ==> (#[trigger] s[i]).key <= (#[trigger] s[j]).key,
    ensures
        inserted_by_key(s, x).to_multiset() == s.to_multiset().insert(x),
        forall|i: int, j: int|
            0 <= i < j < inserted_by_key(s, x).len() ==> (#[trigger] inserted_by_key(s, x)[i]).key
                <= (#[trigger] inserted_by_key(s, x)[j]).key,
    decreases s.len(),
{
    broadcast use vstd::seq_lib::group_to_multiset_ensures;

    let t = inserted_by_key(s, x);
    if s.len() == 0 {
        assert(seq![x] =~= Seq::<RechargePoint>::empty().push(x));
        assert(s =~= Seq::<RechargePoint>::empty());
    } else if x.key < s.last().key {
        let head = inserted_by_key(s.drop_last(), x);
        assert forall|i: int, j: int| 0 <= i < j < s.drop_last().len() implies (
        #[trigger] s.drop_last()[i]).key <= (#[trigger] s.drop_last()[j]).key by {
            assert(s[i].key <= s[j].key);
        }
        lemma_inserted_by_key(s.drop_last(), x);
        assert(s =~= s.drop_last().push(s.last()));
        assert(s.drop_last().to_multiset().insert(x).insert(s.last()) =~= s.drop_last().to_multiset().insert(
            s.last(),
        ).insert(x));
        assert forall|i: int, j: int| 0 <= i < j < t.len() implies (#[trigger] t[i]).key <= (
        #[trigger] t[j]).key by {
            if j < head.len() {
                assert(head[i].key <= head[j].key);
            } else {
                assert(t[i] == head[i]);
                assert(head.to_multiset().count(head[i]) > 0);
                if head[i] != x {
                    assert(s.drop_last().to_multiset().count(head[i]) > 0);
                    assert(s.drop_last().contains(head[i]));
                    let k = choose|k: int| 0 <= k < s.drop_last().len() && s.drop_last()[k] == head[i];
                    assert(s[k].key <= s[s.len() - 1].key);
                }
            }
        }
    } else {
        assert forall|i: int, j: int| 0 <= i < j < t.len() implies (#[trigger] t[i]).key <= (
        #[trigger] t[j]).key by {
            if j < s.len() {
                assert(s[i].key <= s[j].key);
            } else if i < s.len() - 1 {
                assert(s[i].key <= s[s.len() - 1].key);
            }
        }
    }
}

/// Sorting by key rearranges the entries into ascending keys.
pub proof fn lemma_sorted_by_key(s: Seq<RechargePoint>)
    ensures
        sorted_by_key(s).to_multiset() == s.to_multiset(),
        forall|i: int, j: int|
            0 <= i < j < sorted_by_key(s).len() ==> (#[trigger] sorted_by_key(s)[i]).key <= (
            #[trigger] sorted_by_key(s)[j]).key,
    decreases s.len(),
{
    broadcast use vstd::seq_lib::group_to_multiset_ensures;

    if s.len() > 0 {
        lemma_sorted_by_key(s.drop_last());
        lemma_inserted_by_key(sorted_by_key(s.drop_last()), s.last());
        assert(s =~= s.drop_last().push(s.last()));
    }
}

/// Sorts the candidates by key, keeping the order of equal keys.
pub fn sort_by_key(points: &mut Vec<RechargePoint>)
    ensures
        final(points)@ == sorted_by_key(old(points)@),
{
    let n: usize = points.len();
    let mut i: usize = 0;
    assert(old(points)@.take(0) =~= Seq::<RechargePoint>::empty());
    assert(points@.take(0) =~= Seq::<RechargePoint>::empty());
    while i < n
        invariant
            n == points@.len(),
            n == old(points)@.len(),
            i <= n,
            points@.take(i as int) == sorted_by_key(old(points)@.take(i as int)),
            points@.skip(i as int) == old(points)@.skip(i as int),
        decreases n - i,
    {
        let x = points[i];
        let ghost sorted = points@.take(i as int);
        let ghost rest = points@.skip(i as int + 1);
        assert(x == old(points)@.skip(i as int)[0]);
        let mut j: usize = i;
        let mut searching: bool = true;
        assert(sorted.take(j as int) =~= sorted);
        assert(sorted.skip(j as int) =~= Seq::<RechargePoint>::empty());
        while searching
            invariant
                n == points@.len(),
                i < n,
                j <= i,
                sorted.len() == i,
                points@.take(j as int) == sorted.take(j as int),
                forall|k: int| j < k <= i ==> points@[k] == sorted[k - 1],
                points@.skip(i as int + 1) == rest,
                inserted_by_key(sorted, x) == inserted_by_key(sorted.take(j as int), x) + sorted.skip(
                    j as int,
                ),
                !searching ==> inserted_by_key(sorted.take(j as int), x) == sorted.take(
                    j as int,
                ).push(x),
            decreases j + if searching { 1int } else { 0int },
        {
            if j == 0 {
                searching = false;
                assert(sorted.take(0) =~= Seq::<RechargePoint>::empty());
                assert(seq![x] =~= Seq::<RechargePoint>::empty().push(x));
            } else {
                let y = points[j - 1];
                assert(y == points@.take(j as int)[j - 1]);
                assert(y == sorted.take(j as int).last());
                if x.key < y.key {
                    points.set(j, y);
                    proof {
                        assert(sorted.take(j as int).drop_last() =~= sorted.take(j - 1));
                        assert(inserted_by_key(sorted.take(j - 1), x).push(y) + sorted.skip(
                            j as int,
                        ) =~= inserted_by_key(sorted.take(j - 1), x) + sorted.skip(j - 1));
                        assert(points@.take(j - 1) =~= sorted.take(j - 1));
                        assert(points@.skip(i as int + 1) =~= rest);
                    }
                    j -= 1;
                } else {
                    searching = false;
                }
            }
        }
        points.set(j, x);
        proof {
            assert(points@.take(i as int + 1) =~= sorted.take(j as int).push(x) + sorted.skip(
                j as int,
            ));
            assert(old(points)@.take(i as int + 1).drop_last() =~= old(points)@.take(i as int));
            assert(old(points)@.take(i as int + 1).last() == x);
            assert(points@.skip(i as int + 1) =~= rest);
            assert(rest =~= old(points)@.skip(i as int).skip(1));
            assert(old(points)@.skip(i as int).skip(1) =~= old(points)@.skip(i as int + 1));
        }
        i += 1;
    }
    assert(points@.take(n as int) =~= points@);
    assert(old(points)@.take(n as int) =~= old(points)@);
}

/// The recharge vertices within `budget` of `from`, as the crow flies.
pub open spec fn is_in_range(graph: NavGraph, from: Coordinate, budget: u64) -> spec_fn(Mpi) -> bool {
    |mpi: Mpi| euclidean_distance_spec(from, mpi.coord_in(graph.features.waters)) <= budget
}

/// The candidate that stands for the recharge vertex `mpi`, keyed by its
/// distance from `heading_for`.
pub open spec fn as_recharge_point(graph: NavGraph, heading_for: Coordinate) -> spec_fn(
    Mpi,
) -> RechargePoint {
    |mpi: Mpi|
        RechargePoint {
            mpi,
            coord: mpi.coord_in(graph.features.waters),
            key: distance_squared(mpi.coord_in(graph.features.waters), heading_for) as u128,
        }
}

/// The candidates for a recharge, nearest to `heading_for` first: every
/// recharge vertex within `budget` of `from` as the crow flies.
pub open spec fn recharge_candidates(
    graph: NavGraph,
    from: Coordinate,
    budget: u64,
    heading_for: Coordinate,
) -> Seq<RechargePoint> {
    sorted_by_key(
        all_mpis(graph.features.waters).filter(is_in_range(graph, from, budget)).map_values(
            as_recharge_point(graph, heading_for),
        ),
    )
}

/// Collects and orders the candidates for a recharge.
pub fn possible_recharge_points(
    nav_graph: &NavGraph,
    from: Coordinate,
    budget: u64,
    heading_for: Coordinate,
) -> (points: Vec<RechargePoint>)
    ensures
        points@ == recharge_candidates(*nav_graph, from, budget, heading_for),
{
    let water_mpis = nav_graph.features.waters.indexed_coords_iter().collect();
    let mut points: Vec<RechargePoint> = Vec::new();
    let mut i: usize = 0;
    proof {
        lemma_all_mpis(nav_graph.features.waters);
        reveal(Seq::filter);
        assert(water_mpis@.take(0) =~= Seq::<Mpi>::empty());
        assert(water_mpis@.take(0).filter(is_in_range(*nav_graph, from, budget)).map_values(
            as_recharge_point(*nav_graph, heading_for),
        ) =~= Seq::<RechargePoint>::empty());
    }
    while i < water_mpis.len()
        invariant
            i <= water_mpis@.len(),
            forall|k: int|
                0 <= k < water_mpis@.len() ==> (#[trigger] water_mpis@[k]).valid_for(
                    nav_graph.features.waters,
                ),
            points@ == water_mpis@.take(i as int).filter(
                is_in_range(*nav_graph, from, budget),
            ).map_values(as_recharge_point(*nav_graph, heading_for)),
        decreases water_mpis@.len() - i,
    {
        let mpi = water_mpis[i];
        let coord = nav_graph.features.waters.index(&mpi);
        let ghost kept_before = water_mpis@.take(i as int).filter(
            is_in_range(*nav_graph, from, budget),
        );
        proof {
            reveal(Seq::filter);
            assert(water_mpis@.take(i + 1).drop_last() =~= water_mpis@.take(i as int));
        }
        if from.euclidean_distance(&coord) <= budget {
            points.push(
                RechargePoint { mpi, coord, key: coord.distance_squared(&heading_for) },
            );
            assert(points@ =~= kept_before.push(mpi).map_values(
                as_recharge_point(*nav_graph, heading_for),
            ));
        }
        i += 1;
    }
    assert(water_mpis@.take(i as int) =~= water_mpis@);
    sort_by_key(&mut points);
    points
}

/// The length of a path's line of coordinates is the cost of the path.
pub proof fn lemma_polyline_is_path_cost(graph: NavGraph, nodes: Seq<int>, k: int)
    requires
        graph.wf(),
        graph.is_path(nodes),
        0 <= k < nodes.len(),
    ensures
        polyline_length(coords_along(graph, nodes), k) == graph.path_cost(nodes.take(k + 1)),
    decreases k,
{
    if k > 0 {
        lemma_polyline_is_path_cost(graph, nodes, k - 1);
        let head = nodes.take(k + 1);
        assert(head.drop_last() =~= nodes.take(k));
        assert(graph.has_edge(nodes[k - 1], nodes[k - 1 + 1]));
        lemma_edge_length_is_distance(graph, nodes[k - 1], nodes[k]);
    } else {
        assert(nodes.take(1).len() == 1);
    }
}

/// The coordinates of the nodes along `path`.
fn path_coords(nav_graph: &NavGraph, path: &Vec<(usize, u64)>) -> (coords: Vec<Coordinate>)
    requires
        nav_graph.wf(),
        forall|i: int| 0 <= i < path@.len() ==> (#[trigger] path@[i]).0 < nav_graph.nodes().len(),
    ensures
        coords@ == coords_along(*nav_graph, path_nodes(path@)),
{
    let mut coords: Vec<Coordinate> = Vec::new();
    let mut i: usize = 0;
    while i < path.len()
        invariant
            i <= path@.len(),
            nav_graph.wf(),
            forall|k: int| 0 <= k < path@.len() ==> (#[trigger] path@[k]).0 < nav_graph.nodes().len(),
            coords@.len() == i,
            forall|k: int| 0 <= k < i ==> coords@[k] == nav_graph.coord_of(path@[k].0 as int),
        decreases path@.len() - i,
    {
        coords.push(nav_graph.node_coord(path[i].0));
        i += 1;
    }
    assert(coords@ =~= coords_along(*nav_graph, path_nodes(path@)));
    coords
}

/// `path` is a shortest path from `leg_start` to `end`, each node with the
/// cost it is reached at, and `cost` what it costs.
#[verifier::opaque]
pub open spec fn is_way_to_end(graph: NavGraph, leg_start: int, end: int, cost: u64, path: Seq<(usize, u64)>) -> bool {
    &&& is_scored_path(graph, leg_start, path)
    &&& path[path.len() - 1].0 == end
    &&& path[path.len() - 1].1 == cost
    &&& graph.path_cost(path_nodes(path)) == cost
    &&& is_shortest(graph, path_nodes(path), leg_start, end)
}

/// `path` leads from `leg_start` to a vertex of the recharge polygon of the
/// first candidate whose polygon is within `range`, and reaches it within
/// `range`: the vertex for which cost plus straight distance to that
/// candidate is least, at the cost that the path has.
#[verifier::opaque]
pub open spec fn is_way_to_water(
    graph: NavGraph,
    leg_start: int,
    candidates: Seq<RechargePoint>,
    range: u64,
    path: Seq<(usize, u64)>,
) -> bool {
    let last = path[path.len() - 1];
    &&& is_scored_path(graph, leg_start, path)
    &&& graph.nodes()[last.0 as int] is PartOfWater
    &&& graph.path_cost(path_nodes(path)) == last.1
    &&& last.1 <= range
    &&& is_first_in_reach(
        graph,
        leg_start,
        candidates,
        range,
        graph.nodes()[last.0 as int]->PartOfWater_0.polygon_index,
    )
    &&& is_nearest_of_first(graph, leg_start, candidates, range, last)
}

/// The shortest path from `leg_start` to `end`, each node with the cost it
/// is reached at, or nothing when there is no path.
fn shortest_path_to_end(nav_graph: &NavGraph, leg_start: usize, end: usize) -> (found: Option<
    (u64, Vec<(usize, u64)>),
>)
    requires
        nav_graph.wf(),
        leg_start < nav_graph.nodes().len(),
        end < nav_graph.nodes().len(),
    ensures
        match found {
            None => !nav_graph.reachable(leg_start as int, end as int),
            Some((cost, path)) => is_way_to_end(*nav_graph, leg_start as int, end as int, cost, path@),
        },
{
    reveal(is_way_to_end);
    let end_coord = nav_graph.node_coord(end);
    let to_end = ReachNode { end };
    let towards_end = EuclideanTo { nav_graph, target: end_coord };
    proof {
        lemma_straight_distance_usable(*nav_graph, towards_end);
        lemma_straight_distance_admissible(*nav_graph, to_end, towards_end);
        assert forall|x: int| 0 <= x < nav_graph.nodes().len() implies #[trigger] goal_fits(
            to_end,
            x,
        ) by {}
    }
    let (leg_path_to_end_data, _) = bounded_astar(nav_graph, leg_start, &to_end, &towards_end);
    match leg_path_to_end_data {
        None => {
            proof {
                if nav_graph.reachable(leg_start as int, end as int) {
                    let p = choose|p: Seq<int>| nav_graph.connects(p, leg_start as int, end as int);
                    assert(nav_graph.is_path(p) && p[0] == leg_start && to_end.is_target(
                        p[p.len() - 1],
                    ));
                }
            }
            None
        },
        Some((cost, path)) => {
            proof {
                reveal(is_shortest);
                let nodes = path_nodes(path@);
                lemma_scored_path_cost(*nav_graph, leg_start as int, path@);
                assert(nodes[nodes.len() - 1] == end);
                assert(nav_graph.connects(nodes, leg_start as int, end as int));
                assert forall|p: Seq<int>| #[trigger]
                    nav_graph.connects(p, leg_start as int, end as int) implies nav_graph.path_cost(
                    nodes,
                ) <= nav_graph.path_cost(p) by {
                    assert(nav_graph.is_path(p) && p[0] == leg_start && to_end.is_target(
                        p[p.len() - 1],
                    ));
                }
            }
            Some((cost, path))
        },
    }
}

/// The point that lies `budget` along `path`, a path that is longer than
/// that.
fn farthest_point_in_range(
    nav_graph: &NavGraph,
    path: &Vec<(usize, u64)>,
    budget: u64,
    Ghost(leg_start): Ghost<int>,
    Ghost(end): Ghost<int>,
    Ghost(cost): Ghost<u64>,
) -> (point: Coordinate)
    requires
        nav_graph.wf(),
        is_way_to_end(*nav_graph, leg_start, end, cost, path@),
        cost > budget,
    ensures
        point == point_at_length(coords_along(*nav_graph, path_nodes(path@)), budget as int),
{
    reveal(is_way_to_end);
    let coords = path_coords(nav_graph, path);
    proof {
        let nodes = path_nodes(path@);
        lemma_polyline_is_path_cost(*nav_graph, nodes, nodes.len() - 1);
        assert(nodes.take(nodes.len() as int) =~= nodes);
    }
    match line_string_point_at_length(&coords, budget) {
        Some(point) => point,
        None => unreached(),
    }
}

/// The path to the first candidate's recharge polygon that can be reached
/// within the initial range, trying the candidates in order.
fn path_to_recharge(
    nav_graph: &NavGraph,
    leg_start: usize,
    possible_recharge_points: &Vec<RechargePoint>,
    max_distance_initially: u64,
) -> (found: Option<Vec<(usize, u64)>>)
    requires
        nav_graph.wf(),
        leg_start < nav_graph.nodes().len(),
    ensures
        match found {
            None => none_in_reach(
                *nav_graph,
                leg_start as int,
                possible_recharge_points@,
                max_distance_initially,
            ),
            Some(path) => is_way_to_water(
                *nav_graph,
                leg_start as int,
                possible_recharge_points@,
                max_distance_initially,
                path@,
            ),
        },
{
    reveal(is_way_to_water);
    reveal(is_first_in_reach);
    reveal(is_nearest_of_first);
    reveal(none_in_reach);
    let mut k: usize = 0;
    while k < possible_recharge_points.len()
        invariant
            nav_graph.wf(),
            leg_start < nav_graph.nodes().len(),
            k <= possible_recharge_points@.len(),
            none_in_reach(
                *nav_graph,
                leg_start as int,
                possible_recharge_points@.take(k as int),
                max_distance_initially,
            ),
        decreases possible_recharge_points@.len() - k,
    {
        let recharge_point = possible_recharge_points[k];
        let to_water = ReachWater {
            nav_graph,
            polygon_index: recharge_point.mpi.polygon_index,
            max_distance: max_distance_initially,
        };
        let towards_water = EuclideanTo { nav_graph, target: recharge_point.coord };
        proof {
            lemma_straight_distance_usable(*nav_graph, towards_water);
            lemma_straight_distance_consistent(*nav_graph, towards_water);
            assert forall|x: int| 0 <= x < nav_graph.nodes().len() implies #[trigger] goal_fits(
                to_water,
                x,
            ) by {}
        }
        let (start_to_recharge_point_path_data, _) = bounded_astar(
            nav_graph,
            leg_start,
            &to_water,
            &towards_water,
        );
        match start_to_recharge_point_path_data {
            Some((_, path_to_charge_point)) => {
                proof {
                    reveal(is_way_to_water);
                    reveal(is_first_in_reach);
                    reveal(is_nearest_of_first);
                    reveal(none_in_reach);
                    let last = path_to_charge_point@[path_to_charge_point@.len() - 1];
                    assert forall|p: Seq<int>| #[trigger]
                        nav_graph.is_path(p) && p[0] == leg_start && is_water_node(
                            *nav_graph,
                            p[p.len() - 1],
                            recharge_point.mpi.polygon_index,
                        ) && nav_graph.path_cost(p) <= max_distance_initially implies last.1
                        + euclidean_distance_floor_spec(
                        nav_graph.coord_of(last.0 as int),
                        recharge_point.coord,
                    ) <= nav_graph.path_cost(p) + euclidean_distance_floor_spec(
                        nav_graph.coord_of(p[p.len() - 1]),
                        recharge_point.coord,
                    ) by {
                        assert(to_water.is_target(p[p.len() - 1]));
                        assert(towards_water.estimate(p[p.len() - 1])
                            == euclidean_distance_floor_spec(
                            nav_graph.coord_of(p[p.len() - 1]),
                            recharge_point.coord,
                        ));
                    }
                    assert(is_nearest_recharge(
                        *nav_graph,
                        leg_start as int,
                        possible_recharge_points@[k as int],
                        max_distance_initially,
                        last,
                    ));
                    let nodes = path_nodes(path_to_charge_point@);
                    lemma_scored_path_cost(*nav_graph, leg_start as int, path_to_charge_point@);
                    assert(to_water.is_target(nodes[nodes.len() - 1]));
                    assert(nav_graph.is_path(nodes) && nodes[0] == leg_start && is_water_node(
                        *nav_graph,
                        nodes[nodes.len() - 1],
                        recharge_point.mpi.polygon_index,
                    ) && nav_graph.path_cost(nodes) <= max_distance_initially);
                    assert(possible_recharge_points@[k as int].mpi.polygon_index
                        == recharge_point.mpi.polygon_index);
                }
                return Some(path_to_charge_point);
            },
            None => {
                proof {
                    reveal(none_in_reach);
                    let polygon_index = recharge_point.mpi.polygon_index;
                    if polygon_in_reach(
                        *nav_graph,
                        leg_start as int,
                        polygon_index,
                        max_distance_initially,
                    ) {
                        let p = choose|p: Seq<int>| #[trigger]
                            nav_graph.is_path(p) && p[0] == leg_start && is_water_node(
                                *nav_graph,
                                p[p.len() - 1],
                                polygon_index,
                            ) && nav_graph.path_cost(p) <= max_distance_initially;
                        assert(to_water.is_target(p[p.len() - 1]));
                    }
                    let earlier = possible_recharge_points@.take(k as int);
                    let now = possible_recharge_points@.take(k + 1);
                    assert forall|j: int| 0 <= j < now.len() implies !polygon_in_reach(
                        *nav_graph,
                        leg_start as int,
                        (#[trigger] now[j]).mpi.polygon_index,
                        max_distance_initially,
                    ) by {
                        if j < k {
                            assert(earlier[j] == now[j]);
                        }
                    }
                }
            },
        }
        k += 1;
    }
    assert(possible_recharge_points@.take(k as int) =~= possible_recharge_points@);
    None
}

/// The node that a way to water ends at.
fn end_of_way(
    nav_graph: &NavGraph,
    path: &Vec<(usize, u64)>,
    Ghost(leg_start): Ghost<int>,
    Ghost(candidates): Ghost<Seq<RechargePoint>>,
    Ghost(range): Ghost<u64>,
) -> (node: usize)
    requires
        is_way_to_water(*nav_graph, leg_start, candidates, range, path@),
    ensures
        path@.len() >= 1,
        node == path@[path@.len() - 1].0,
        node < nav_graph.nodes().len(),
        nav_graph.reachable(leg_start, node as int),
{
    reveal(is_way_to_water);
    proof {
        lemma_scored_path_cost(*nav_graph, leg_start, path@);
        let nodes = path_nodes(path@);
        assert(nav_graph.connects(nodes, leg_start, nodes[nodes.len() - 1]));
    }
    path[path.len() - 1].0
}

/// What the planner owes for its answer.
///
/// A plan is a plan. No path to the end is reported exactly when there is
/// none. Where some path to the end is within the initial range, the plan is
/// the single leg along a shortest path, and only there. Any other error
/// comes after legs to recharges, none or some, that lead to a node where
/// the planner is stranded, for `NoPathToWater`, or circling, for
/// `LoopDetected`.
#[verifier::opaque]
pub open spec fn is_planned(
    graph: NavGraph,
    max_distance_initially: u64,
    max_distance_after_charge: u64,
    start: int,
    end: int,
    planned: Result<Vec<Leg>, PlannerError>,
) -> bool {
    &&& planned is Ok ==> is_plan(
        graph,
        max_distance_initially,
        max_distance_after_charge,
        start,
        end,
        planned->Ok_0@,
    )
    &&& (planned is Err && planned->Err_0 == PlannerError::NoPathToEnd) <==> !graph.reachable(
        start,
        end,
    )
    &&& within_reach(graph, max_distance_initially, start, end) <==> planned is Ok
        && planned->Ok_0@.len() == 1
    &&& (planned is Err && planned->Err_0 == PlannerError::NoPathToWater) ==> exists|legs: Seq<Leg>|
        #![trigger legs.len()]
        all_recharge_legs(
            graph,
            max_distance_initially,
            max_distance_after_charge,
            start,
            end,
            legs,
        ) && is_stranded(
            graph,
            leg_start_of(start, legs, legs.len() as int),
            end,
            leg_budget(max_distance_initially, max_distance_after_charge, legs.len() as int),
            max_distance_initially,
        )
    &&& (planned is Err && planned->Err_0 == PlannerError::LoopDetected) ==> exists|legs: Seq<Leg>|
        #![trigger legs.len()]
        all_recharge_legs(
            graph,
            max_distance_initially,
            max_distance_after_charge,
            start,
            end,
            legs,
        ) && is_circling(
            graph,
            leg_start_of(start, legs, legs.len() as int),
            end,
            leg_budget(max_distance_initially, max_distance_after_charge, legs.len() as int),
            max_distance_initially,
            legs.len(),
        )
}

/// Some path from `start` to `end` costs no more than `range`.
#[verifier::opaque]
pub open spec fn within_reach(graph: NavGraph, range: u64, start: int, end: int) -> bool {
    exists|p: Seq<int>| #[trigger] graph.connects(p, start, end) && graph.path_cost(p) <= range
}

/// Every leg of `legs` is a leg to a recharge that starts where the leg
/// before it ended.
#[verifier::opaque]
pub open spec fn all_recharge_legs(
    graph: NavGraph,
    max_distance_initially: u64,
    max_distance_after_charge: u64,
    start: int,
    end: int,
    legs: Seq<Leg>,
) -> bool {
    forall|i: int|
        0 <= i < legs.len() ==> is_recharge_leg(
            graph,
            leg_start_of(start, legs, i),
            end,
            leg_budget(max_distance_initially, max_distance_after_charge, i),
            max_distance_initially,
            #[trigger] legs[i],
        )
}

/// Where a shortest path costs more than the range, nothing is within
/// reach.
proof fn lemma_out_of_reach(
    graph: NavGraph,
    range: u64,
    start: int,
    end: int,
    cost: u64,
    way: Seq<(usize, u64)>,
)
    requires
        is_way_to_end(graph, start, end, cost, way),
        cost > range,
    ensures
        !within_reach(graph, range, start, end),
        graph.reachable(start, end),
{
    reveal(is_way_to_end);
    reveal(is_shortest);
    reveal(within_reach);
}

/// A path to a recharge vertex, flown because the end is out of range, is a
/// leg to a recharge.
proof fn lemma_recharge_leg(
    graph: NavGraph,
    leg_start: int,
    end: int,
    budget: u64,
    max_distance_initially: u64,
    leg: Leg,
    cost: u64,
    way: Seq<(usize, u64)>,
)
    requires
        is_way_to_water(
            graph,
            leg_start,
            recharge_candidates(graph, graph.coord_of(leg_start), budget, leg.last_reachable),
            max_distance_initially,
            leg.path@,
        ),
        leg.path@[leg.path@.len() - 1].0 != leg_start,
        is_way_to_end(graph, leg_start, end, cost, way),
        cost > budget,
        leg.last_reachable == point_at_length(coords_along(graph, path_nodes(way)), budget as int),
    ensures
        is_recharge_leg(graph, leg_start, end, budget, max_distance_initially, leg),
{
    reveal(is_recharge_leg);
    reveal(is_way_to_water);
    reveal(is_way_to_end);
    reveal(heads_for);
}

/// One more leg to a recharge, added where the legs before it ended.
proof fn lemma_recharge_leg_added(
    graph: NavGraph,
    max_distance_initially: u64,
    max_distance_after_charge: u64,
    start: int,
    end: int,
    earlier: Seq<Leg>,
    leg: Leg,
)
    requires
        all_recharge_legs(
            graph,
            max_distance_initially,
            max_distance_after_charge,
            start,
            end,
            earlier,
        ),
        is_recharge_leg(
            graph,
            leg_start_of(start, earlier, earlier.len() as int),
            end,
            leg_budget(max_distance_initially, max_distance_after_charge, earlier.len() as int),
            max_distance_initially,
            leg,
        ),
    ensures
        all_recharge_legs(
            graph,
            max_distance_initially,
            max_distance_after_charge,
            start,
            end,
            earlier.push(leg),
        ),
        leg_start_of(start, earlier.push(leg), earlier.len() as int + 1) == leg.path@[leg.path@.len()
            - 1].0,
{
    reveal(all_recharge_legs);
    let legs = earlier.push(leg);
    assert forall|i: int| 0 <= i < legs.len() implies is_recharge_leg(
        graph,
        leg_start_of(start, legs, i),
        end,
        leg_budget(max_distance_initially, max_distance_after_charge, i),
        max_distance_initially,
        #[trigger] legs[i],
    ) by {
        if i > 0 {
            assert(legs[i - 1] == earlier[i - 1]);
        }
        assert(leg_start_of(start, legs, i) == leg_start_of(start, earlier, i));
        if i < earlier.len() {
            assert(legs[i] == earlier[i]);
        }
    }
}

/// Legs to recharges followed by a last leg make a plan; the plan has one
/// leg exactly if the end is within the initial range.
proof fn lemma_plan_completed(
    graph: NavGraph,
    max_distance_initially: u64,
    max_distance_after_charge: u64,
    start: int,
    end: int,
    earlier: Seq<Leg>,
    leg: Leg,
    cost: u64,
)
    requires
        all_recharge_legs(
            graph,
            max_distance_initially,
            max_distance_after_charge,
            start,
            end,
            earlier,
        ),
        is_way_to_end(
            graph,
            leg_start_of(start, earlier, earlier.len() as int),
            end,
            cost,
            leg.path@,
        ),
        leg.last_reachable == graph.coord_of(end),
        cost <= leg_budget(max_distance_initially, max_distance_after_charge, earlier.len() as int),
        earlier.len() >= 1 ==> !within_reach(graph, max_distance_initially, start, end),
        earlier.len() >= 1 ==> graph.reachable(start, end),
    ensures
        is_plan(
            graph,
            max_distance_initially,
            max_distance_after_charge,
            start,
            end,
            earlier.push(leg),
        ),
        within_reach(graph, max_distance_initially, start, end) <==> earlier.len() == 0,
        graph.reachable(start, end),
{
    reveal(all_recharge_legs);
    reveal(is_final_leg);
    reveal(is_shortest);
    reveal(within_reach);
    reveal(is_way_to_end);
    let legs = earlier.push(leg);
    assert forall|i: int| 0 <= i < legs.len() - 1 implies is_recharge_leg(
        graph,
        leg_start_of(start, legs, i),
        end,
        leg_budget(max_distance_initially, max_distance_after_charge, i),
        max_distance_initially,
        #[trigger] legs[i],
    ) by {
        assert(legs[i] == earlier[i]);
        if i > 0 {
            assert(legs[i - 1] == earlier[i - 1]);
        }
        assert(leg_start_of(start, legs, i) == leg_start_of(start, earlier, i));
    }
    if earlier.len() > 0 {
        assert(legs[earlier.len() - 1] == earlier[earlier.len() - 1]);
    }
    assert(leg_start_of(start, legs, legs.len() - 1) == leg_start_of(
        start,
        earlier,
        earlier.len() as int,
    ));
    if earlier.len() == 0 {
        let nodes = path_nodes(leg.path@);
        assert(graph.connects(nodes, start, end));
    }
}

/// Without a path to the end, saying so is what the planner owes.
proof fn lemma_planned_no_path(
    graph: NavGraph,
    max_distance_initially: u64,
    max_distance_after_charge: u64,
    start: int,
    end: int,
)
    requires
        !graph.reachable(start, end),
    ensures
        is_planned(
            graph,
            max_distance_initially,
            max_distance_after_charge,
            start,
            end,
            Err(PlannerError::NoPathToEnd),
        ),
{
    reveal(is_planned);
    reveal(within_reach);
}

/// Stranded after legs to recharges, to say that no recharge is in reach is
/// what the planner owes.
proof fn lemma_planned_stranded(
    graph: NavGraph,
    max_distance_initially: u64,
    max_distance_after_charge: u64,
    start: int,
    end: int,
    legs: Seq<Leg>,
    point: Coordinate,
    cost: u64,
    way: Seq<(usize, u64)>,
)
    requires
        graph.reachable(start, end),
        !within_reach(graph, max_distance_initially, start, end),
        all_recharge_legs(
            graph,
            max_distance_initially,
            max_distance_after_charge,
            start,
            end,
            legs,
        ),
        is_way_to_end(graph, leg_start_of(start, legs, legs.len() as int), end, cost, way),
        cost > leg_budget(max_distance_initially, max_distance_after_charge, legs.len() as int),
        point == point_at_length(
            coords_along(graph, path_nodes(way)),
            leg_budget(max_distance_initially, max_distance_after_charge, legs.len() as int) as int,
        ),
        none_in_reach(
            graph,
            leg_start_of(start, legs, legs.len() as int),
            recharge_candidates(
                graph,
                graph.coord_of(leg_start_of(start, legs, legs.len() as int)),
                leg_budget(max_distance_initially, max_distance_after_charge, legs.len() as int),
                point,
            ),
            max_distance_initially,
        ),
    ensures
        is_planned(
            graph,
            max_distance_initially,
            max_distance_after_charge,
            start,
            end,
            Err(PlannerError::NoPathToWater),
        ),
{
    reveal(is_planned);
    reveal(is_way_to_end);
    reveal(heads_for);
    let from = leg_start_of(start, legs, legs.len() as int);
    let budget = leg_budget(max_distance_initially, max_distance_after_charge, legs.len() as int);
    assert(heads_for(graph, from, end, budget, point));
    assert(is_stranded(graph, from, end, budget, max_distance_initially));
}

/// Circling after legs to recharges, to say so is what the planner owes.
proof fn lemma_planned_circling(
    graph: NavGraph,
    max_distance_initially: u64,
    max_distance_after_charge: u64,
    start: int,
    end: int,
    legs: Seq<Leg>,
    point: Coordinate,
    cost: u64,
    way: Seq<(usize, u64)>,
    way_to_water: Seq<(usize, u64)>,
)
    requires
        graph.reachable(start, end),
        !within_reach(graph, max_distance_initially, start, end),
        all_recharge_legs(
            graph,
            max_distance_initially,
            max_distance_after_charge,
            start,
            end,
            legs,
        ),
        is_way_to_end(graph, leg_start_of(start, legs, legs.len() as int), end, cost, way),
        cost > leg_budget(max_distance_initially, max_distance_after_charge, legs.len() as int),
        point == point_at_length(
            coords_along(graph, path_nodes(way)),
            leg_budget(max_distance_initially, max_distance_after_charge, legs.len() as int) as int,
        ),
        is_way_to_water(
            graph,
            leg_start_of(start, legs, legs.len() as int),
            recharge_candidates(
                graph,
                graph.coord_of(leg_start_of(start, legs, legs.len() as int)),
                leg_budget(max_distance_initially, max_distance_after_charge, legs.len() as int),
                point,
            ),
            max_distance_initially,
            way_to_water,
        ),
        way_to_water[way_to_water.len() - 1].0 == leg_start_of(start, legs, legs.len() as int)
            || legs.len() == graph.nodes().len(),
    ensures
        is_planned(
            graph,
            max_distance_initially,
            max_distance_after_charge,
            start,
            end,
            Err(PlannerError::LoopDetected),
        ),
{
    reveal(is_planned);
    reveal(is_way_to_end);
    reveal(is_way_to_water);
    reveal(heads_for);
    let from = leg_start_of(start, legs, legs.len() as int);
    let budget = leg_budget(max_distance_initially, max_distance_after_charge, legs.len() as int);
    let last = way_to_water[way_to_water.len() - 1];
    let chosen = graph.nodes()[last.0 as int]->PartOfWater_0.polygon_index;
    assert(heads_for(graph, from, end, budget, point));
    assert(turns_to(graph, from, end, budget, max_distance_initially, point, chosen));
    assert(is_circling(graph, from, end, budget, max_distance_initially, legs.len()));
}

/// A plan that has one leg exactly if the end is within reach is what the
/// planner owes.
proof fn lemma_planned_ok(
    graph: NavGraph,
    max_distance_initially: u64,
    max_distance_after_charge: u64,
    start: int,
    end: int,
    legs: Vec<Leg>,
)
    requires
        is_plan(graph, max_distance_initially, max_distance_after_charge, start, end, legs@),
        within_reach(graph, max_distance_initially, start, end) <==> legs@.len() == 1,
        graph.reachable(start, end),
    ensures
        is_planned(
            graph,
            max_distance_initially,
            max_distance_after_charge,
            start,
            end,
            Ok(legs),
        ),
{
    reveal(is_planned);
}

/// A leg to a recharge starts where it is said to start.
proof fn lemma_recharge_leg_starts(
    graph: NavGraph,
    leg_start: int,
    end: int,
    budget: u64,
    max_distance_initially: u64,
    leg: Leg,
)
    requires
        is_recharge_leg(graph, leg_start, end, budget, max_distance_initially, leg),
    ensures
        leg.path@[0].0 == leg_start,
{
    reveal(is_recharge_leg);
}

/// A last leg starts where it is said to start, and ends at the end.
proof fn lemma_final_leg_ends(graph: NavGraph, leg_start: int, end: int, budget: u64, leg: Leg)
    requires
        is_final_leg(graph, leg_start, end, budget, leg),
    ensures
        leg.path@[0].0 == leg_start,
        leg.path@[leg.path@.len() - 1].0 == end,
{
    reveal(is_final_leg);
}

/// The legs of a plan are contiguous: the first starts at `start`, every
/// later one at the node where the leg before it ended, and the last ends at
/// `end`.
pub proof fn lemma_plan_contiguous(
    graph: NavGraph,
    max_distance_initially: u64,
    max_distance_after_charge: u64,
    start: int,
    end: int,
    legs: Seq<Leg>,
)
    requires
        is_plan(graph, max_distance_initially, max_distance_after_charge, start, end, legs),
    ensures
        legs[0].path@[0].0 == start,
        forall|i: int|
            1 <= i < legs.len() ==> (#[trigger] legs[i]).path@[0].0 == legs[i - 1].path@[legs[i
                - 1].path@.len() - 1].0,
        legs[legs.len() - 1].path@[legs[legs.len() - 1].path@.len() - 1].0 == end,
{
    assert forall|i: int| 0 <= i < legs.len() implies (#[trigger] legs[i]).path@[0].0
        == leg_start_of(start, legs, i) by {
        if i < legs.len() - 1 {
            lemma_recharge_leg_starts(
                graph,
                leg_start_of(start, legs, i),
                end,
                leg_budget(max_distance_initially, max_distance_after_charge, i),
                max_distance_initially,
                legs[i],
            );
        } else {
            lemma_final_leg_ends(
                graph,
                leg_start_of(start, legs, i),
                end,
                leg_budget(max_distance_initially, max_distance_after_charge, i),
                legs[i],
            );
        }
    }
    lemma_final_leg_ends(
        graph,
        leg_start_of(start, legs, legs.len() - 1),
        end,
        leg_budget(max_distance_initially, max_distance_after_charge, legs.len() - 1),
        legs[legs.len() - 1],
    );
}

/// Plans the flight from `start` to `end` in legs.
///
/// While the end is out of range, the planner heads for the farthest point
/// in range on the shortest path to the end, and flies to the recharge
/// polygon that has a vertex nearest to that point and can be reached within
/// the initial range. It recharges there and plans on with the range after
/// a recharge.
///
/// The planner gives up with `LoopDetected` when a leg ends where it began,
/// and when it has recharged as often as the graph has nodes: it has then
/// recharged twice at one node, and would go on in circles.
pub fn plan_path_or_recharge(
    nav_graph: &NavGraph,
    max_distance_initially: u64,
    max_distance_after_charge: u64,
    start: usize,
    end: usize,
) -> (planned: Result<Vec<Leg>, PlannerError>)
    requires
        nav_graph.wf(),
        start < nav_graph.nodes().len(),
        end < nav_graph.nodes().len(),
    ensures
        is_planned(
            *nav_graph,
            max_distance_initially,
            max_distance_after_charge,
            start as int,
            end as int,
            planned,
        ),
{
    let end_coord = nav_graph.node_coord(end);
    let mut leg_start: usize = start;
    let mut leg_max_distance: u64 = max_distance_initially;
    let mut legs: Vec<Leg> = Vec::new();
    let mut recharges_left: usize = nav_graph.node_count();
    proof {
        lemma_reachable_self(*nav_graph, start as int);
        reveal(all_recharge_legs);
    }

    loop
        invariant
            nav_graph.wf(),
            start < nav_graph.nodes().len(),
            end < nav_graph.nodes().len(),
            leg_start < nav_graph.nodes().len(),
            end_coord == nav_graph.coord_of(end as int),
            nav_graph.reachable(start as int, leg_start as int),
            leg_start == leg_start_of(start as int, legs@, legs@.len() as int),
            leg_max_distance == leg_budget(
                max_distance_initially,
                max_distance_after_charge,
                legs@.len() as int,
            ),
            all_recharge_legs(
                *nav_graph,
                max_distance_initially,
                max_distance_after_charge,
                start as int,
                end as int,
                legs@,
            ),
            legs@.len() >= 1 ==> nav_graph.reachable(start as int, end as int) && !within_reach(
                *nav_graph,
                max_distance_initially,
                start as int,
                end as int,
            ),
            recharges_left + legs@.len() == nav_graph.nodes().len(),
        decreases recharges_left,
    {
        proof {
            lemma_reachable_from_reached(*nav_graph, start as int, leg_start as int, end as int);
        }
        let (leg_distance_to_end, leg_path_to_end) = match shortest_path_to_end(
            nav_graph,
            leg_start,
            end,
        ) {
            None => {
                proof {
                    lemma_planned_no_path(
                        *nav_graph,
                        max_distance_initially,
                        max_distance_after_charge,
                        start as int,
                        end as int,
                    );
                }
                return Err(PlannerError::NoPathToEnd);
            },
            Some(found) => found,
        };

        if leg_distance_to_end <= leg_max_distance {
            let ghost earlier = legs@;
            let leg = Leg { last_reachable: end_coord, path: leg_path_to_end };
            proof {
                lemma_plan_completed(
                    *nav_graph,
                    max_distance_initially,
                    max_distance_after_charge,
                    start as int,
                    end as int,
                    earlier,
                    leg,
                    leg_distance_to_end,
                );
            }
            legs.push(leg);
            proof {
                assert(legs@ =~= earlier.push(leg));
                lemma_planned_ok(
                    *nav_graph,
                    max_distance_initially,
                    max_distance_after_charge,
                    start as int,
                    end as int,
                    legs,
                );
            }
            return Ok(legs);
        }
        proof {
            lemma_out_of_reach(
                *nav_graph,
                leg_max_distance,
                leg_start as int,
                end as int,
                leg_distance_to_end,
                leg_path_to_end@,
            );
            assert(legs@.len() == 0 ==> leg_start == start && leg_max_distance
                == max_distance_initially);
        }

        let leg_start_coord = nav_graph.node_coord(leg_start);
        let last_reachable_point = farthest_point_in_range(
            nav_graph,
            &leg_path_to_end,
            leg_max_distance,
            Ghost(leg_start as int),
            Ghost(end as int),
            Ghost(leg_distance_to_end),
        );
        let possible_recharge_points = possible_recharge_points(
            nav_graph,
            leg_start_coord,
            leg_max_distance,
            last_reachable_point,
        );
        let best_recharge_point_path = match path_to_recharge(
            nav_graph,
            leg_start,
            &possible_recharge_points,
            max_distance_initially,
        ) {
            Some(path) => path,
            None => {
                proof {
                    lemma_planned_stranded(
                        *nav_graph,
                        max_distance_initially,
                        max_distance_after_charge,
                        start as int,
                        end as int,
                        legs@,
                        last_reachable_point,
                        leg_distance_to_end,
                        leg_path_to_end@,
                    );
                }
                return Err(PlannerError::NoPathToWater);
            },
        };
        let best_recharge_point = end_of_way(
            nav_graph,
            &best_recharge_point_path,
            Ghost(leg_start as int),
            Ghost(possible_recharge_points@),
            Ghost(max_distance_initially),
        );

        if best_recharge_point == leg_start || recharges_left == 0 {
            proof {
                lemma_planned_circling(
                    *nav_graph,
                    max_distance_initially,
                    max_distance_after_charge,
                    start as int,
                    end as int,
                    legs@,
                    last_reachable_point,
                    leg_distance_to_end,
                    leg_path_to_end@,
                    best_recharge_point_path@,
                );
            }
            return Err(PlannerError::LoopDetected);
        }
        let ghost earlier = legs@;
        let leg = Leg { last_reachable: last_reachable_point, path: best_recharge_point_path };
        proof {
            lemma_reachable_from_reached(
                *nav_graph,
                start as int,
                leg_start as int,
                best_recharge_point as int,
            );
            lemma_recharge_leg(
                *nav_graph,
                leg_start as int,
                end as int,
                leg_max_distance,
                max_distance_initially,
                leg,
                leg_distance_to_end,
                leg_path_to_end@,
            );
            lemma_recharge_leg_added(
                *nav_graph,
                max_distance_initially,
                max_distance_after_charge,
                start as int,
                end as int,
                earlier,
                leg,
            );
        }
        legs.push(leg);

        leg_start = best_recharge_point;
        leg_max_distance = max_distance_after_charge;
        recharges_left -= 1;
    }
}

} // verus!
