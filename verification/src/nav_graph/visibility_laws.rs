//! What the sweep finds, held against the plain test of every obstacle
//! edge.

use super::create::{is_joined_by_sight, lemma_filter_no_duplicates, sees};
use super::crossings::{
    cross_of, direction_turns_before, lemma_between_both_passed, lemma_between_none_passed,
    lemma_between_one_passed, lemma_cross_around, lemma_passing_is_crossing,
    lemma_proper_crossing,
};
use super::graph_types::{lemma_edge_length_bounds, Edge, Features, NavGraph, NodeData};
use super::shortest_path::{is_shortest_path, lemma_same_edges_same_shortest_cost, same_edges};
use super::visibility::{
    admissible_pair, all_valid, applicable_candidates, crossed_by_ray, crossed_properly,
    first_position, incident_at, initial_obstacle_edges, is_admissible_from, is_far,
    is_first_position, is_in_sweep_order, is_near, is_other_than, is_same_location,
    is_visible_from_spec, lemma_filter_membership, lemma_sees_naively_symmetric,
    lemma_sweep_sorted_contains, lemma_sweep_sorted_in_order, lemma_sweep_sorted_permutes,
    lemma_visibility_symmetric, lemma_visible_vertices_naive, lemma_visible_vertices_within,
    met_away_from, node_sweep_before, ordered_for_sweep, sees_naively, swap_removed, sweep_sorted,
    swept, updated_obstacle_edges, visible_vertices_spec, with_edge_toggled,
    VisibilityOptimizationMode, WPrevInfo,
};
use crate::coord_ext::{cmp_angle_spec, lemma_pseudoangle_monotonic, sweep_before};
use crate::geometry::{
    cross, in_segment_interior, lemma_flatten_step, orientation, ring_edge, ring_edges, Coordinate,
    Line, MultiPolygon, Orientation,
};
use crate::intersection::{lines_intersect, lines_intersect_properly, ray_intersects_properly};
use crate::mpi::{enters_polygon_locally, lemma_neighbors_valid, Mpi};
use vstd::prelude::*;

verus! {

/// The sight line from `p` to `w` is in general position among `nodes`: no
/// node lies on it between the two, and an obstacle edge that meets it
/// without ending in either crosses it properly. So no vertex of an
/// obstacle lies on the sight line, neither end of the sight line lies on
/// an edge it is no end of, and no edge runs along it.
pub open spec fn sight_line_in_general_position(
    features: Features,
    p: NodeData,
    w: NodeData,
    nodes: Seq<NodeData>,
) -> bool {
    let p_coord = features.coord_spec(p);
    let w_coord = features.coord_spec(w);
    let edges = features.obstacles.edges();
    &&& forall|x: NodeData| #[trigger]
        nodes.contains(x) ==> !in_segment_interior(features.coord_spec(x), p_coord, w_coord)
    &&& forall|i: int|
        0 <= i < edges.len() && !incident_at(#[trigger] edges[i], p_coord) && !incident_at(
            edges[i],
            w_coord,
        ) && lines_intersect(edges[i], Line { start: p_coord, end: w_coord })
            ==> lines_intersect_properly(edges[i], Line { start: p_coord, end: w_coord })
}

/// Every active edge is an edge of the obstacles and does not end in
/// `p_coord`.
pub open spec fn active_edges_fit(features: Features, p_coord: Coordinate, active: Seq<Line>) -> bool {
    forall|k: int|
        0 <= k < active.len() ==> features.obstacles.edges().contains(#[trigger] active[k])
            && !incident_at(active[k], p_coord)
}

/// What one of the tabulated sequences holds, their flattening holds.
pub proof fn lemma_flatten_contains<A>(n: nat, f: spec_fn(int) -> Seq<A>, k: int, x: A)
    requires
        0 <= k < n,
        f(k).contains(x),
    ensures
        Seq::new(n, f).flatten().contains(x),
    decreases n,
{
    lemma_flatten_step((n - 1) as nat, f);
    let head = Seq::new((n - 1) as nat, f).flatten();
    let whole = head + f(n - 1);
    if k == n - 1 {
        let last = f(k);
        let i = choose|i: int| 0 <= i < last.len() && last[i] == x;
        assert(whole[head.len() + i] == x);
    } else {
        lemma_flatten_contains((n - 1) as nat, f, k, x);
        let i = choose|i: int| 0 <= i < head.len() && head[i] == x;
        assert(whole[i] == x);
    }
}

/// The two ring edges at a vertex, as the sweep writes them, are edges of
/// the multi-polygon.
pub proof fn lemma_edges_at_vertex(mp: MultiPolygon, m: Mpi)
    requires
        mp.wf(),
        m.valid_for(mp),
    ensures
        mp.edges().contains(Line { start: m.coord_in(mp), end: m.left_in(mp).coord_in(mp) }),
        mp.edges().contains(Line { start: m.right_in(mp).coord_in(mp), end: m.coord_in(mp) }),
{
    let p = m.polygon_index as int;
    let r = m.ring_index as int;
    let c = m.coord_index as int;
    let polygon = mp.polygon(p);
    let ring = mp.ring(p, r);
    let count = ring.len() - 1;
    assert(polygon.wf());
    assert(crate::geometry::ring_wf(polygon.ring(r)));
    lemma_neighbors_valid(m, mp);
    let left = Line { start: m.coord_in(mp), end: m.left_in(mp).coord_in(mp) };
    let right = Line { start: m.right_in(mp).coord_in(mp), end: m.coord_in(mp) };
    if c + 1 == count {
        vstd::arithmetic::div_mod::lemma_fundamental_div_mod_converse(c + 1, count, 1, 0);
    } else {
        vstd::arithmetic::div_mod::lemma_fundamental_div_mod_converse(c + 1, count, 0, c + 1);
    }
    let before = if c == 0 {
        count - 1
    } else {
        c - 1
    };
    if c == 0 {
        vstd::arithmetic::div_mod::lemma_fundamental_div_mod_converse(c - 1, count, -1, count - 1);
    } else {
        vstd::arithmetic::div_mod::lemma_fundamental_div_mod_converse(c - 1, count, 0, c - 1);
    }
    if r == 0 {
        assert(polygon.exterior.len() <= usize::MAX);
    } else {
        assert(polygon.interiors@[r - 1].len() <= usize::MAX);
    }
    assert(ring_edges(ring)[c] == ring_edge(ring, c));
    assert(ring_edges(ring)[before] == ring_edge(ring, before));
    assert(left == ring_edge(ring, c));
    assert(right == ring_edge(ring, before));
    assert(ring_edges(ring).contains(left));
    assert(ring_edges(ring).contains(right));
    let rings = |k: int| ring_edges(polygon.ring(k));
    lemma_flatten_contains(polygon.ring_count(), rings, r, left);
    lemma_flatten_contains(polygon.ring_count(), rings, r, right);
    let polygons = |k: int| mp.polygon(k).edges();
    lemma_flatten_contains(mp.len(), polygons, p, left);
    lemma_flatten_contains(mp.len(), polygons, p, right);
}

/// An edge that occurs at position `i` has a first position.
proof fn lemma_first_position(edges: Seq<Line>, e: Line, i: int)
    requires
        0 <= i < edges.len(),
        edges[i] == e,
    ensures
        is_first_position(edges, e, first_position(edges, e)),
    decreases i,
{
    if exists|j: int| 0 <= j < i && edges[j] == e {
        let j = choose|j: int| 0 <= j < i && edges[j] == e;
        lemma_first_position(edges, e, j);
    } else {
        assert(is_first_position(edges, e, i));
    }
}

/// Toggling an edge leaves only edges that were there, and the edge itself
/// where it is kept.
pub proof fn lemma_toggled_within(edges: Seq<Line>, e: Line, keep: bool, x: Line)
    requires
        with_edge_toggled(edges, e, keep).contains(x),
    ensures
        edges.contains(x) || (keep && x == e),
{
    let after = with_edge_toggled(edges, e, keep);
    let k = choose|k: int| 0 <= k < after.len() && after[k] == x;
    if keep {
        if !edges.contains(e) {
            if k < edges.len() {
                assert(edges[k] == x);
            }
        }
    } else if edges.contains(e) {
        let at = choose|at: int| 0 <= at < edges.len() && edges[at] == e;
        lemma_first_position(edges, e, at);
        let i = first_position(edges, e);
        assert(after == swap_removed(edges, i));
        if k == i {
            assert(edges[edges.len() - 1] == x);
        } else {
            assert(edges[k] == x);
        }
    }
}

/// Passing an obstacle vertex that is not at `p_coord` keeps the active
/// edges among the edges of the obstacles, none of them ending in `p_coord`.
pub proof fn lemma_updated_edges_fit(features: Features, p_coord: Coordinate, w_mpi: Mpi, active: Seq<Line>)
    requires
        features.wf(),
        w_mpi.valid_for(features.obstacles),
        w_mpi.coord_in(features.obstacles) != p_coord,
        active_edges_fit(features, p_coord, active),
    ensures
        active_edges_fit(
            features,
            p_coord,
            updated_obstacle_edges(p_coord, w_mpi, features.obstacles, active),
        ),
{
    let obstacles = features.obstacles;
    let w_coord = w_mpi.coord_in(obstacles);
    let w_left_coord = w_mpi.left_in(obstacles).coord_in(obstacles);
    let w_right_coord = w_mpi.right_in(obstacles).coord_in(obstacles);
    let left = Line { start: w_coord, end: w_left_coord };
    let right = Line { start: w_right_coord, end: w_coord };
    let keep_left = orientation(p_coord, w_coord, w_left_coord) == Orientation::CounterClockwise;
    let keep_right = orientation(p_coord, w_coord, w_right_coord) == Orientation::CounterClockwise;
    let after_left = with_edge_toggled(active, left, keep_left);
    let after = with_edge_toggled(after_left, right, keep_right);
    lemma_edges_at_vertex(obstacles, w_mpi);
    assert(cross(p_coord, w_coord, p_coord) == 0) by (nonlinear_arith);
    assert forall|k: int| 0 <= k < after.len() implies obstacles.edges().contains(
        #[trigger] after[k],
    ) && !incident_at(after[k], p_coord) by {
        let x = after[k];
        assert(after.contains(x));
        lemma_toggled_within(after_left, right, keep_right, x);
        if after_left.contains(x) {
            lemma_toggled_within(active, left, keep_left, x);
            if active.contains(x) {
                let i = choose|i: int| 0 <= i < active.len() && active[i] == x;
                assert(obstacles.edges().contains(active[i]) && !incident_at(active[i], p_coord));
            }
        }
    }
}

/// The edges that a half-line from `p_coord` properly crosses are edges of
/// the obstacles, none of them ending in `p_coord`.
pub proof fn lemma_initial_edges_fit(features: Features, p_coord: Coordinate, through: Coordinate)
    ensures
        active_edges_fit(
            features,
            p_coord,
            features.obstacles.edges().filter(crossed_by_ray(p_coord, through)),
        ),
{
    broadcast use Seq::lemma_filter_contains_rev;

    let all = features.obstacles.edges();
    let active = all.filter(crossed_by_ray(p_coord, through));
    assert forall|k: int| 0 <= k < active.len() implies all.contains(#[trigger] active[k])
        && !incident_at(active[k], p_coord) by {
        let e = active[k];
        assert(active.contains(e));
        all.lemma_filter_pred(crossed_by_ray(p_coord, through), k);
        assert(ray_intersects_properly(p_coord, through, e));
        assert(cross(p_coord, e.end, p_coord) == 0) by (nonlinear_arith);
        assert(cross(e.start, p_coord, p_coord) == 0) by (nonlinear_arith);
    }
}

/// The sweep runs as the plain test does but for the edges it tests: it is
/// a sweep, and where it is the optimized one, `p` is no obstacle vertex, so
/// that no candidate is cut off and no test is left out.
pub open spec fn sweeps_plainly(p: NodeData, optimization_mode: VisibilityOptimizationMode) -> bool {
    &&& optimization_mode != VisibilityOptimizationMode::Naive
    &&& optimization_mode == VisibilityOptimizationMode::OptimizedSweep ==> !(p is PartOfObstacle)
}

/// Under the sweep, a candidate from position `i` on that passes the plain
/// test, and whose sight line is in general position, is found visible,
/// whatever the sweep has made of the active edges.
pub proof fn lemma_swept_finds(
    p: NodeData,
    ws: Seq<NodeData>,
    far: Seq<NodeData>,
    i: int,
    active: Seq<Line>,
    prev: Option<WPrevInfo>,
    features: Features,
    mode: VisibilityOptimizationMode,
    w: NodeData,
)
    requires
        features.wf(),
        sweeps_plainly(p, mode),
        all_valid(far, features),
        0 <= i <= far.len(),
        forall|j: int| 0 <= j < far.len() ==> ws.contains(#[trigger] far[j]),
        forall|j: int|
            0 <= j < far.len() ==> features.coord_spec(#[trigger] far[j]) != features.coord_spec(p),
        prev is Some ==> ws.contains(prev->0.w_prev),
        active_edges_fit(features, features.coord_spec(p), active),
        exists|j: int| i <= j < far.len() && far[j] == w,
        is_visible_from_spec(
            p,
            None,
            w,
            features.obstacles.edges(),
            features,
            VisibilityOptimizationMode::Naive,
        ),
        sight_line_in_general_position(features, p, w, ws),
    ensures
        swept(p, far, i, active, prev, features, mode).contains(w),
    decreases far.len() - i,
{
    let p_coord = features.coord_spec(p);
    let current = far[i];
    let visible = is_visible_from_spec(p, prev, current, active, features, mode);
    let next_active = if current is PartOfObstacle {
        updated_obstacle_edges(p_coord, current->PartOfObstacle_0, features.obstacles, active)
    } else {
        active
    };
    let next_prev = Some(WPrevInfo { w_prev: current, w_prev_visible: visible });
    let rest = swept(p, far, i + 1, next_active, next_prev, features, mode);
    let all = swept(p, far, i, active, prev, features, mode);
    if current == w {
        let w_coord = features.coord_spec(w);
        let sight = Line { start: p_coord, end: w_coord };
        let edges = features.obstacles.edges();
        if met_away_from(active, sight, w_coord) {
            let k = choose|k: int|
                0 <= k < active.len() && !incident_at(#[trigger] active[k], w_coord)
                    && lines_intersect(active[k], sight);
            assert(edges.contains(active[k]) && !incident_at(active[k], p_coord));
            let m = choose|m: int| 0 <= m < edges.len() && edges[m] == active[k];
            assert(lines_intersect_properly(edges[m], sight));
            assert(crossed_properly(edges, sight, w_coord));
        }
        assert(visible);
        assert(all[0] == w);
    } else {
        assert(features.node_valid(far[i]));
        if current is PartOfObstacle {
            lemma_updated_edges_fit(features, p_coord, current->PartOfObstacle_0, active);
        }
        assert(ws.contains(far[i]));
        lemma_swept_finds(p, ws, far, i + 1, next_active, next_prev, features, mode, w);
        let k = choose|k: int| 0 <= k < rest.len() && rest[k] == w;
        if visible {
            assert(all[k + 1] == w);
        } else {
            assert(all[k] == w);
        }
    }
}

/// Under the sweep, every candidate is found visible that the plain test of
/// all obstacle edges finds visible, where its sight line is in general
/// position among the candidates. This holds of the sweep from any node, and
/// of the optimized sweep from a node that is no obstacle vertex. The order
/// the candidates come in is of no account here.
pub proof fn lemma_sweep_finds_what_is_plainly_visible(
    p: NodeData,
    ws: Seq<NodeData>,
    features: Features,
    mode: VisibilityOptimizationMode,
    w: NodeData,
)
    requires
        features.wf(),
        sweeps_plainly(p, mode),
        all_valid(ws, features),
        ws.contains(w),
        sees_naively(features, p, w),
        sight_line_in_general_position(features, p, w, ws),
    ensures
        visible_vertices_spec(p, ws, features, mode).contains(w),
{
    let p_coord = features.coord_spec(p);
    let others = ws.filter(is_other_than(p));
    let candidates = others.filter(is_admissible_from(p));
    assert(candidates == applicable_candidates(p, ws, features, mode));
    let far = candidates.filter(is_far(p_coord, features));
    let near = candidates.filter(is_near(p_coord, features));
    let initial = initial_obstacle_edges(p_coord, far, features, mode);
    let first = swept(p, far, 0, initial, None, features, mode);
    lemma_filter_membership(ws, is_other_than(p), w);
    lemma_filter_membership(others, is_admissible_from(p), w);
    lemma_filter_membership(candidates, is_far(p_coord, features), w);
    lemma_filter_membership(candidates, is_near(p_coord, features), w);
    if is_same_location(p_coord, features.coord_spec(w)) {
        let k = choose|k: int| 0 <= k < near.len() && near[k] == w;
        assert((first + near)[first.len() + k] == w);
    } else {
        assert forall|j: int| 0 <= j < far.len() implies ws.contains(#[trigger] far[j])
            && features.node_valid(far[j]) && features.coord_spec(far[j]) != p_coord by {
            let x = far[j];
            assert(far.contains(x));
            lemma_filter_membership(candidates, is_far(p_coord, features), x);
            lemma_filter_membership(others, is_admissible_from(p), x);
            lemma_filter_membership(ws, is_other_than(p), x);
            let k = choose|k: int| 0 <= k < ws.len() && ws[k] == x;
            assert(features.node_valid(ws[k]));
            assert(!is_same_location(p_coord, features.coord_spec(x)));
            assert(is_same_location(p_coord, p_coord)) by {
                assert(crate::coord_ext::distance_squared(p_coord, p_coord) == 0) by (nonlinear_arith)
                    requires
                        crate::coord_ext::distance_squared(p_coord, p_coord) == (p_coord.x
                            - p_coord.x) * (p_coord.x - p_coord.x) + (p_coord.y - p_coord.y) * (
                        p_coord.y - p_coord.y),
                ;
            }
        }
        let j = choose|j: int| 0 <= j < far.len() && far[j] == w;
        lemma_initial_edges_fit(features, p_coord, features.coord_spec(far[0]));
        lemma_swept_finds(p, ws, far, 0, initial, None, features, mode, w);
        let k = choose|k: int| 0 <= k < first.len() && first[k] == w;
        assert((first + near)[k] == w);
    }
}

/// After an edge was toggled among edges none of which occurs twice, none
/// occurs twice, the edge is there exactly if it was to be kept, and every
/// other edge is there exactly if it was before.
pub proof fn lemma_toggled(edges: Seq<Line>, e: Line, keep: bool, x: Line)
    requires
        edges.no_duplicates(),
    ensures
        with_edge_toggled(edges, e, keep).no_duplicates(),
        with_edge_toggled(edges, e, keep).contains(x) == if x == e {
            keep
        } else {
            edges.contains(x)
        },
{
    let after = with_edge_toggled(edges, e, keep);
    if keep {
        if !edges.contains(e) {
            assert(after[edges.len() as int] == e);
            if edges.contains(x) {
                let k = choose|k: int| 0 <= k < edges.len() && edges[k] == x;
                assert(after[k] == x);
            }
            if after.contains(x) {
                let k = choose|k: int| 0 <= k < after.len() && after[k] == x;
                if k < edges.len() {
                    assert(edges[k] == x);
                }
            }
            assert forall|k: int, l: int| 0 <= k < after.len() && 0 <= l < after.len() && k != l implies after[k]
                != after[l] by {
                if k < edges.len() {
                    assert(edges.contains(edges[k]));
                }
                if l < edges.len() {
                    assert(edges.contains(edges[l]));
                }
            }
        }
    } else if edges.contains(e) {
        let at = choose|at: int| 0 <= at < edges.len() && edges[at] == e;
        lemma_first_position(edges, e, at);
        let i = first_position(edges, e);
        let last = edges.len() - 1;
        assert(after == swap_removed(edges, i));
        assert forall|k: int| 0 <= k < after.len() implies after[k] == if k == i {
            edges[last]
        } else {
            edges[k]
        } by {}
        if edges.contains(x) && x != e {
            let k = choose|k: int| 0 <= k < edges.len() && edges[k] == x;
            if k == last {
                assert(after[i] == x);
            } else {
                assert(after[k] == x);
            }
        }
        if after.contains(x) {
            let k = choose|k: int| 0 <= k < after.len() && after[k] == x;
            if k == i {
                assert(edges[last] == x);
            } else {
                assert(edges[k] == x);
            }
        }
    }
}

/// After the sweep has passed an obstacle vertex, no active edge occurs
/// twice if none did before; the edge from the right neighbor is active
/// exactly if its far end lies counter-clockwise, else the edge to the left
/// neighbor likewise, and every other edge is active exactly if it was before.
pub proof fn lemma_updated_edges(
    p_coord: Coordinate,
    w_mpi: Mpi,
    obstacles: MultiPolygon,
    active: Seq<Line>,
    x: Line,
)
    requires
        active.no_duplicates(),
    ensures
        updated_obstacle_edges(p_coord, w_mpi, obstacles, active).no_duplicates(),
        updated_obstacle_edges(p_coord, w_mpi, obstacles, active).contains(x) == {
            let w_coord = w_mpi.coord_in(obstacles);
            let w_left_coord = w_mpi.left_in(obstacles).coord_in(obstacles);
            let w_right_coord = w_mpi.right_in(obstacles).coord_in(obstacles);
            if x == (Line { start: w_right_coord, end: w_coord }) {
                orientation(p_coord, w_coord, w_right_coord) == Orientation::CounterClockwise
            } else if x == (Line { start: w_coord, end: w_left_coord }) {
                orientation(p_coord, w_coord, w_left_coord) == Orientation::CounterClockwise
            } else {
                active.contains(x)
            }
        },
{
    let w_coord = w_mpi.coord_in(obstacles);
    let w_left_coord = w_mpi.left_in(obstacles).coord_in(obstacles);
    let w_right_coord = w_mpi.right_in(obstacles).coord_in(obstacles);
    let left = Line { start: w_coord, end: w_left_coord };
    let right = Line { start: w_right_coord, end: w_coord };
    let keep_left = orientation(p_coord, w_coord, w_left_coord) == Orientation::CounterClockwise;
    let keep_right = orientation(p_coord, w_coord, w_right_coord) == Orientation::CounterClockwise;
    let after_left = with_edge_toggled(active, left, keep_left);
    lemma_toggled(active, left, keep_left, x);
    lemma_toggled(after_left, right, keep_right, x);
}

/// What the flattening of tabulated sequences holds, one of them holds.
pub proof fn lemma_flatten_member<A>(n: nat, f: spec_fn(int) -> Seq<A>, x: A) -> (k: int)
    requires
        Seq::new(n, f).flatten().contains(x),
    ensures
        0 <= k < n,
        f(k).contains(x),
    decreases n,
{
    if n == 0 {
        assert(Seq::new(0, f).flatten() =~= Seq::<A>::empty());
        0
    } else {
        lemma_flatten_step((n - 1) as nat, f);
        let head = Seq::new((n - 1) as nat, f).flatten();
        let last = f(n - 1);
        let whole = head + last;
        let i = choose|i: int| 0 <= i < whole.len() && whole[i] == x;
        if i < head.len() {
            assert(head[i] == x);
            lemma_flatten_member((n - 1) as nat, f, x)
        } else {
            assert(last[i - head.len()] == x);
            n - 1
        }
    }
}

/// Every edge of a multi-polygon runs from one of its vertices to the left
/// neighbor of that vertex.
pub proof fn lemma_edge_starts_at_vertex(mp: MultiPolygon, e: Line) -> (m: Mpi)
    requires
        mp.wf(),
        mp.edges().contains(e),
    ensures
        m.valid_for(mp),
        m.left_in(mp).valid_for(mp),
        e == (Line { start: m.coord_in(mp), end: m.left_in(mp).coord_in(mp) }),
        m.left_in(mp) != m,
        m.left_in(mp).right_in(mp) == m,
{
    let polygons = |k: int| mp.polygon(k).edges();
    let p = lemma_flatten_member(mp.len(), polygons, e);
    let polygon = mp.polygon(p);
    let rings = |k: int| ring_edges(polygon.ring(k));
    let r = lemma_flatten_member(polygon.ring_count(), rings, e);
    let ring = polygon.ring(r);
    let edges = ring_edges(ring);
    let c = choose|c: int| 0 <= c < edges.len() && edges[c] == e;
    let count = ring.len() - 1;
    assert(polygon.wf());
    assert(crate::geometry::ring_wf(polygon.ring(r)));
    assert(mp.0.len() <= usize::MAX);
    assert(polygon.interiors.len() <= usize::MAX);
    if r == 0 {
        assert(polygon.exterior.len() <= usize::MAX);
    } else {
        assert(polygon.interiors@[r - 1].len() <= usize::MAX);
    }
    let m = Mpi { polygon_index: p as usize, ring_index: r as usize, coord_index: c as usize };
    lemma_neighbors_valid(m, mp);
    if c + 1 == count {
        vstd::arithmetic::div_mod::lemma_fundamental_div_mod_converse(c + 1, count, 1, 0);
        vstd::arithmetic::div_mod::lemma_fundamental_div_mod_converse(-1, count, -1, count - 1);
    } else {
        vstd::arithmetic::div_mod::lemma_fundamental_div_mod_converse(c + 1, count, 0, c + 1);
        vstd::arithmetic::div_mod::lemma_fundamental_div_mod_converse(c, count, 0, c);
    }
    assert(edges[c] == ring_edge(ring, c));
    m
}

/// Keeping some entries of a sequence in sweep order leaves it in sweep
/// order.
pub proof fn lemma_filter_in_sweep_order(
    s: Seq<NodeData>,
    pred: spec_fn(NodeData) -> bool,
    p_coord: Coordinate,
    features: Features,
)
    requires
        is_in_sweep_order(s, p_coord, features),
    ensures
        is_in_sweep_order(s.filter(pred), p_coord, features),
    decreases s.len(),
{
    reveal(Seq::filter);
    if s.len() > 0 {
        let head = s.drop_last();
        assert forall|i: int, j: int| 0 <= i < j < head.len() implies !node_sweep_before(
            p_coord,
            features,
            #[trigger] head[j],
            #[trigger] head[i],
        ) by {
            assert(head[i] == s[i] && head[j] == s[j]);
        }
        lemma_filter_in_sweep_order(head, pred, p_coord, features);
        let kept = head.filter(pred);
        if pred(s.last()) {
            let all = kept.push(s.last());
            assert forall|i: int, j: int| 0 <= i < j < all.len() implies !node_sweep_before(
                p_coord,
                features,
                #[trigger] all[j],
                #[trigger] all[i],
            ) by {
                if j < kept.len() {
                    assert(all[i] == kept[i] && all[j] == kept[j]);
                } else {
                    assert(kept.contains(kept[i]));
                    lemma_filter_membership(head, pred, kept[i]);
                    let k = choose|k: int| 0 <= k < head.len() && head[k] == kept[i];
                    assert(s[k] == kept[i] && s[s.len() - 1] == all[j]);
                }
            }
        }
    }
}

/// Keeping some of the edges of which none occurs twice leaves none that
/// occurs twice, and keeps exactly the edges that pass.
pub proof fn lemma_filter_edges(s: Seq<Line>, pred: spec_fn(Line) -> bool, x: Line)
    requires
        s.no_duplicates(),
    ensures
        s.filter(pred).no_duplicates(),
        s.filter(pred).contains(x) == (s.contains(x) && pred(x)),
    decreases s.len(),
{
    reveal(Seq::filter);
    if s.len() > 0 {
        let head = s.drop_last();
        lemma_filter_edges(head, pred, x);
        lemma_filter_edges(head, pred, s.last());
        let kept = head.filter(pred);
        if head.contains(s.last()) {
            let k = choose|k: int| 0 <= k < head.len() && head[k] == s.last();
            assert(s[k] == s[s.len() - 1]);
        }
        if s.contains(x) {
            let k = choose|k: int| 0 <= k < s.len() && s[k] == x;
            if k < head.len() {
                assert(head[k] == x);
            }
        }
        if head.contains(x) {
            let k = choose|k: int| 0 <= k < head.len() && head[k] == x;
            assert(s[k] == x);
        }
        if pred(s.last()) {
            let all = kept.push(s.last());
            assert(all[kept.len() as int] == s.last());
            if kept.contains(x) {
                let k = choose|k: int| 0 <= k < kept.len() && kept[k] == x;
                assert(all[k] == x);
            }
            if all.contains(x) {
                let k = choose|k: int| 0 <= k < all.len() && all[k] == x;
                if k < kept.len() {
                    assert(kept[k] == x);
                }
            }
            assert forall|k: int, l: int| 0 <= k < all.len() && 0 <= l < all.len() && k != l implies all[k]
                != all[l] by {
                if k < kept.len() {
                    assert(kept.contains(kept[k]));
                }
                if l < kept.len() {
                    assert(kept.contains(kept[l]));
                }
            }
        }
    }
}

/// The candidates come in strict order of direction: each lies in a
/// direction from `p_coord` that comes before the directions of all later
/// ones.
pub open spec fn in_strict_sweep_order(far: Seq<NodeData>, p_coord: Coordinate, features: Features) -> bool {
    forall|j: int, k: int|
        0 <= j < k < far.len() ==> direction_turns_before(
            p_coord,
            features.coord_spec(#[trigger] far[j]),
            features.coord_spec(#[trigger] far[k]),
        )
}

/// Of two points that do not lie in one direction from `p`, neither of them
/// `p` itself, the one that does not come after the other in the sweep lies
/// in a direction that comes before the other's.
pub proof fn lemma_not_after_is_before(p: Coordinate, x: Coordinate, y: Coordinate)
    requires
        x != p,
        y != p,
        !sweep_before(p, y, x),
        !(cmp_angle_spec(p, y, x) is Equal),
    ensures
        direction_turns_before(p, x, y),
{
    lemma_pseudoangle_monotonic(x.x - p.x, x.y - p.y, y.x - p.x, y.y - p.y);
}

/// Whether the edge from `a` to `b`, whose ends stand at the positions `ja`
/// and `jb` among the candidates, is active when the sweep arrives at
/// position `i`: as the end that the sweep passed last left it, and as the
/// first half-line found it where the sweep has passed neither.
pub open spec fn edge_is_active(
    p: Coordinate,
    first: Coordinate,
    a: Coordinate,
    b: Coordinate,
    ja: int,
    jb: int,
    i: int,
) -> bool {
    if ja < i && (jb >= i || jb < ja) {
        orientation(p, a, b) == Orientation::CounterClockwise
    } else if jb < i {
        orientation(p, b, a) == Orientation::CounterClockwise
    } else {
        ray_intersects_properly(p, first, Line { start: a, end: b })
    }
}

/// No end of the sight line from `p` to `w` enters an obstacle that it is a
/// vertex of, as far as the mode tests it.
pub open spec fn is_locally_clear(
    p: NodeData,
    w: NodeData,
    features: Features,
    optimization_mode: VisibilityOptimizationMode,
) -> bool {
    &&& !(optimization_mode != VisibilityOptimizationMode::OptimizedSweep && p is PartOfObstacle
        && enters_polygon_locally(p->PartOfObstacle_0, features.coord_spec(w), features.obstacles))
    &&& !(w is PartOfObstacle && enters_polygon_locally(
        w->PartOfObstacle_0,
        features.coord_spec(p),
        features.obstacles,
    ))
}

/// What the sweep reports from position `i` on stands at a position from
/// `i` on, and its sight line is locally clear.
pub proof fn lemma_swept_from(
    p: NodeData,
    far: Seq<NodeData>,
    i: int,
    active: Seq<Line>,
    prev: Option<WPrevInfo>,
    features: Features,
    mode: VisibilityOptimizationMode,
    x: NodeData,
)
    requires
        0 <= i,
        swept(p, far, i, active, prev, features, mode).contains(x),
    ensures
        exists|j: int| i <= j < far.len() && far[j] == x,
        is_locally_clear(p, x, features, mode),
    decreases far.len() - i,
{
    if i < far.len() {
        let current = far[i];
        let visible = is_visible_from_spec(p, prev, current, active, features, mode);
        let next_active = if mode != VisibilityOptimizationMode::Naive && current is PartOfObstacle {
            updated_obstacle_edges(
                features.coord_spec(p),
                current->PartOfObstacle_0,
                features.obstacles,
                active,
            )
        } else {
            active
        };
        let next_prev = Some(WPrevInfo { w_prev: current, w_prev_visible: visible });
        let rest = swept(p, far, i + 1, next_active, next_prev, features, mode);
        let all = swept(p, far, i, active, prev, features, mode);
        let k = choose|k: int| 0 <= k < all.len() && all[k] == x;
        if visible && k == 0 {
            assert(far[i] == x);
        } else {
            if visible {
                assert(all[k] == rest[k - 1]);
            }
            assert(rest.contains(x));
            lemma_swept_from(p, far, i + 1, next_active, next_prev, features, mode, x);
        }
    }
}

/// The sweep does not report a candidate whose sight line an obstacle edge
/// crosses properly: when the sweep arrives at the candidate, the edge is
/// active.
pub proof fn lemma_swept_misses(
    p: NodeData,
    far: Seq<NodeData>,
    i: int,
    active: Seq<Line>,
    prev: Option<WPrevInfo>,
    features: Features,
    mode: VisibilityOptimizationMode,
    iw: int,
    ma: Mpi,
    ja: int,
    jb: int,
)
    requires
        features.wf(),
        mode != VisibilityOptimizationMode::Naive,
        all_valid(far, features),
        far.no_duplicates(),
        in_strict_sweep_order(far, features.coord_spec(p), features),
        0 <= i <= iw < far.len(),
        0 <= ja < far.len(),
        0 <= jb < far.len(),
        ma.valid_for(features.obstacles),
        ma.left_in(features.obstacles).valid_for(features.obstacles),
        ma.left_in(features.obstacles).right_in(features.obstacles) == ma,
        ma.left_in(features.obstacles) != ma,
        far[ja] == NodeData::PartOfObstacle(ma),
        far[jb] == NodeData::PartOfObstacle(ma.left_in(features.obstacles)),
        forall|m: Mpi, n: Mpi|
            m.valid_for(features.obstacles) && n.valid_for(features.obstacles) && m != n
                ==> #[trigger] m.coord_in(features.obstacles) != #[trigger] n.coord_in(
                features.obstacles,
            ),
        forall|k: int|
            0 <= k < far.len() ==> !in_segment_interior(
                features.coord_spec(#[trigger] far[k]),
                features.coord_spec(p),
                features.coord_spec(far[iw]),
            ),
        prev is Some ==> far.contains(prev->0.w_prev),
        active.no_duplicates(),
        active.contains(
            Line {
                start: ma.coord_in(features.obstacles),
                end: ma.left_in(features.obstacles).coord_in(features.obstacles),
            },
        ) == edge_is_active(
            features.coord_spec(p),
            features.coord_spec(far[0]),
            ma.coord_in(features.obstacles),
            ma.left_in(features.obstacles).coord_in(features.obstacles),
            ja,
            jb,
            i,
        ),
        lines_intersect_properly(
            Line {
                start: ma.coord_in(features.obstacles),
                end: ma.left_in(features.obstacles).coord_in(features.obstacles),
            },
            Line { start: features.coord_spec(p), end: features.coord_spec(far[iw]) },
        ),
        !incident_at(
            Line {
                start: ma.coord_in(features.obstacles),
                end: ma.left_in(features.obstacles).coord_in(features.obstacles),
            },
            features.coord_spec(far[iw]),
        ),
    ensures
        !swept(p, far, i, active, prev, features, mode).contains(far[iw]),
    decreases far.len() - i,
{
    let obstacles = features.obstacles;
    let mb = ma.left_in(obstacles);
    let a = ma.coord_in(obstacles);
    let b = mb.coord_in(obstacles);
    let e = Line { start: a, end: b };
    let p_coord = features.coord_spec(p);
    let w = far[iw];
    let w_coord = features.coord_spec(w);
    let first = features.coord_spec(far[0]);
    let current = far[i];
    let visible = is_visible_from_spec(p, prev, current, active, features, mode);
    let next_active = if current is PartOfObstacle {
        updated_obstacle_edges(p_coord, current->PartOfObstacle_0, obstacles, active)
    } else {
        active
    };
    let next_prev = Some(WPrevInfo { w_prev: current, w_prev_visible: visible });
    let rest = swept(p, far, i + 1, next_active, next_prev, features, mode);
    let all = swept(p, far, i, active, prev, features, mode);
    assert(ja != jb);
    assert(features.node_valid(far[ja]) && features.node_valid(far[jb]));
    assert(a != b);
    if i == iw {
        let sight = Line { start: p_coord, end: w_coord };
        assert(ja != iw && jb != iw);
        lemma_proper_crossing(p_coord, w_coord, a, b);
        lemma_passing_is_crossing(p_coord, w_coord, a, b);
        lemma_passing_is_crossing(p_coord, first, a, b);
        lemma_cross_around(p_coord, a, b, a);
        lemma_cross_around(p_coord, b, a, b);
        let (wx, wy) = (w_coord.x - p_coord.x, w_coord.y - p_coord.y);
        let (ax, ay) = (a.x - p_coord.x, a.y - p_coord.y);
        let (bx, by) = (b.x - p_coord.x, b.y - p_coord.y);
        assert(cross(p_coord, a, b) == cross_of(ax, ay, bx, by));
        assert(cross(p_coord, b, a) == cross_of(bx, by, ax, ay));
        if ja < iw && jb > iw {
            lemma_between_one_passed(ax, ay, wx, wy, bx, by);
        } else if jb < iw && ja > iw {
            lemma_between_one_passed(bx, by, wx, wy, ax, ay);
        } else if ja < iw && jb < iw {
            if jb < ja {
                lemma_between_both_passed(bx, by, ax, ay, wx, wy);
            } else {
                lemma_between_both_passed(ax, ay, bx, by, wx, wy);
            }
        } else if iw > 0 {
            lemma_between_none_passed(
                first.x - p_coord.x,
                first.y - p_coord.y,
                wx,
                wy,
                ax,
                ay,
                bx,
                by,
            );
        }
        assert(edge_is_active(p_coord, first, a, b, ja, jb, i));
        let k = choose|k: int| 0 <= k < active.len() && active[k] == e;
        assert(!incident_at(active[k], w_coord) && lines_intersect(active[k], sight));
        assert(met_away_from(active, sight, w_coord));
        if prev is Some {
            let l = choose|l: int| 0 <= l < far.len() && far[l] == prev->0.w_prev;
            assert(!in_segment_interior(features.coord_spec(far[l]), p_coord, w_coord));
        }
        assert(!visible);
        if rest.contains(w) {
            lemma_swept_from(p, far, i + 1, next_active, next_prev, features, mode, w);
        }
    } else {
        if current is PartOfObstacle {
            let x = current->PartOfObstacle_0;
            assert(features.node_valid(far[i]));
            lemma_updated_edges(p_coord, x, obstacles, active, e);
            lemma_neighbors_valid(x, obstacles);
            if i == ja {
                assert(x == ma);
                lemma_neighbors_valid(ma, obstacles);
            } else if i == jb {
                assert(x == mb);
            } else {
                assert(x != ma && x != mb);
            }
        }
        assert(far.contains(far[i]));
        lemma_swept_misses(p, far, i + 1, next_active, next_prev, features, mode, iw, ma, ja, jb);
        if all.contains(w) {
            let k = choose|k: int| 0 <= k < all.len() && all[k] == w;
            if visible {
                if k > 0 {
                    assert(rest[k - 1] == w);
                }
            } else {
                assert(rest[k] == w);
            }
        }
    }
}

/// The obstacles and the candidates `ws` are in general position as seen
/// from `p`: no obstacle edge occurs twice and no two obstacle vertices lie
/// in one place; every obstacle vertex other than `p` is a candidate that
/// the ring rule admits and that lies beyond the same-point distance; and no
/// two candidates beyond that distance lie in one direction from `p`.
pub open spec fn in_general_position(features: Features, p: NodeData, ws: Seq<NodeData>) -> bool {
    let p_coord = features.coord_spec(p);
    let obstacles = features.obstacles;
    &&& obstacles.edges().no_duplicates()
    &&& forall|m: Mpi|
        #![trigger m.valid_for(obstacles)]
        m.valid_for(obstacles) && NodeData::PartOfObstacle(m) != p ==> {
            &&& ws.contains(NodeData::PartOfObstacle(m))
            &&& admissible_pair(p, NodeData::PartOfObstacle(m))
            &&& !is_same_location(p_coord, m.coord_in(obstacles))
        }
    &&& forall|m: Mpi, n: Mpi|
        m.valid_for(obstacles) && n.valid_for(obstacles) && m != n ==> #[trigger] m.coord_in(
            obstacles,
        ) != #[trigger] n.coord_in(obstacles)
    &&& forall|x: NodeData, y: NodeData|
        #![trigger ws.contains(x), ws.contains(y)]
        ws.contains(x) && ws.contains(y) && x != y && !is_same_location(
            p_coord,
            features.coord_spec(x),
        ) && !is_same_location(p_coord, features.coord_spec(y)) ==> !(cmp_angle_spec(
            p_coord,
            features.coord_spec(x),
            features.coord_spec(y),
        ) is Equal)
}

/// A point is within the same-point distance of itself.
proof fn lemma_same_location_as_itself(c: Coordinate)
    ensures
        is_same_location(c, c),
{
    assert(crate::coord_ext::distance_squared(c, c) == 0) by (nonlinear_arith)
        requires
            crate::coord_ext::distance_squared(c, c) == (c.x - c.x) * (c.x - c.x) + (c.y - c.y) * (
            c.y - c.y),
    ;
}

/// Under the sweep, in general position, a candidate is found visible only
/// if the plain test of all obstacle edges finds it visible: an edge that
/// crosses the sight line is among the active edges when the sweep arrives
/// at the candidate. This holds of the sweep from any node, and of the
/// optimized sweep from a node that is no obstacle vertex.
pub proof fn lemma_sweep_finds_only_what_is_plainly_visible(
    p: NodeData,
    ws: Seq<NodeData>,
    features: Features,
    mode: VisibilityOptimizationMode,
    w: NodeData,
)
    requires
        features.wf(),
        all_valid(ws, features),
        sweeps_plainly(p, mode),
        ws.no_duplicates(),
        is_in_sweep_order(ws, features.coord_spec(p), features),
        in_general_position(features, p, ws),
        ws.contains(w) ==> sight_line_in_general_position(features, p, w, ws),
        visible_vertices_spec(p, ws, features, mode).contains(w),
    ensures
        ws.contains(w),
        sees_naively(features, p, w),
{
    let naive = VisibilityOptimizationMode::Naive;
    let p_coord = features.coord_spec(p);
    let w_coord = features.coord_spec(w);
    let obstacles = features.obstacles;
    let edges = obstacles.edges();
    let others = ws.filter(is_other_than(p));
    let candidates = others.filter(is_admissible_from(p));
    assert(candidates == applicable_candidates(p, ws, features, mode));
    let far = candidates.filter(is_far(p_coord, features));
    let near = candidates.filter(is_near(p_coord, features));
    let initial = initial_obstacle_edges(p_coord, far, features, mode);
    let first = swept(p, far, 0, initial, None, features, mode);
    let all = first + near;
    lemma_visible_vertices_within(p, ws, features, mode, w);
    lemma_filter_membership(ws, is_other_than(p), w);
    lemma_filter_membership(others, is_admissible_from(p), w);
    lemma_filter_membership(candidates, is_far(p_coord, features), w);
    lemma_filter_membership(candidates, is_near(p_coord, features), w);
    if !is_same_location(p_coord, w_coord) {
        let k = choose|k: int| 0 <= k < all.len() && all[k] == w;
        if k >= first.len() {
            assert(near[k - first.len()] == w);
            assert(near.contains(w));
        }
        assert(first[k] == w);
        assert(first.contains(w));
        lemma_swept_from(p, far, 0, initial, None, features, mode, w);
        let sight = Line { start: p_coord, end: w_coord };
        if crossed_properly(edges, sight, w_coord) {
            let at = choose|at: int|
                0 <= at < edges.len() && !incident_at(#[trigger] edges[at], w_coord)
                    && lines_intersect_properly(edges[at], sight);
            let e = edges[at];
            assert(edges.contains(e));
            let ma = lemma_edge_starts_at_vertex(obstacles, e);
            let mb = ma.left_in(obstacles);
            let ua = NodeData::PartOfObstacle(ma);
            let ub = NodeData::PartOfObstacle(mb);
            let a = ma.coord_in(obstacles);
            let b = mb.coord_in(obstacles);
            // the ends of the edge are candidates
            if incident_at(e, p_coord) {
                crate::intersection::lemma_no_proper_intersection_at_shared_endpoint(
                    e,
                    w_coord,
                    p_coord,
                );
            }
            lemma_same_location_as_itself(p_coord);
            assert(a != p_coord && b != p_coord);
            assert(ua != p && ub != p);
            assert(ma.valid_for(obstacles) && mb.valid_for(obstacles));
            lemma_filter_membership(ws, is_other_than(p), ua);
            lemma_filter_membership(others, is_admissible_from(p), ua);
            lemma_filter_membership(candidates, is_far(p_coord, features), ua);
            lemma_filter_membership(ws, is_other_than(p), ub);
            lemma_filter_membership(others, is_admissible_from(p), ub);
            lemma_filter_membership(candidates, is_far(p_coord, features), ub);
            assert(far.contains(ua) && far.contains(ub));
            let ja = choose|ja: int| 0 <= ja < far.len() && far[ja] == ua;
            let jb = choose|jb: int| 0 <= jb < far.len() && far[jb] == ub;
            let iw = choose|iw: int| 0 <= iw < far.len() && far[iw] == w;
            // the candidates come in strict order, each once
            lemma_filter_no_duplicates(ws, is_other_than(p));
            lemma_filter_no_duplicates(others, is_admissible_from(p));
            lemma_filter_no_duplicates(candidates, is_far(p_coord, features));
            lemma_filter_in_sweep_order(ws, is_other_than(p), p_coord, features);
            lemma_filter_in_sweep_order(others, is_admissible_from(p), p_coord, features);
            lemma_filter_in_sweep_order(candidates, is_far(p_coord, features), p_coord, features);
            assert forall|j: int| 0 <= j < far.len() implies ws.contains(#[trigger] far[j])
                && features.node_valid(far[j]) && !is_same_location(
                p_coord,
                features.coord_spec(far[j]),
            ) && features.coord_spec(far[j]) != p_coord by {
                let x = far[j];
                assert(far.contains(x));
                lemma_filter_membership(candidates, is_far(p_coord, features), x);
                lemma_filter_membership(others, is_admissible_from(p), x);
                lemma_filter_membership(ws, is_other_than(p), x);
                let k = choose|k: int| 0 <= k < ws.len() && ws[k] == x;
                assert(features.node_valid(ws[k]));
            }
            assert forall|j: int, k: int| 0 <= j < k < far.len() implies direction_turns_before(
                p_coord,
                features.coord_spec(#[trigger] far[j]),
                features.coord_spec(#[trigger] far[k]),
            ) by {
                let x = far[j];
                let y = far[k];
                assert(ws.contains(y) && ws.contains(x));
                assert(x != y);
                assert(!(cmp_angle_spec(p_coord, features.coord_spec(y), features.coord_spec(x))
                    is Equal));
                assert(!node_sweep_before(p_coord, features, far[k], far[j]));
                lemma_not_after_is_before(p_coord, features.coord_spec(x), features.coord_spec(y));
            }
            assert forall|k: int| 0 <= k < far.len() implies !in_segment_interior(
                features.coord_spec(#[trigger] far[k]),
                p_coord,
                w_coord,
            ) by {
                assert(ws.contains(far[k]));
            }
            // the edges that the sweep starts with
            lemma_filter_edges(edges, crossed_by_ray(p_coord, features.coord_spec(far[0])), e);
            lemma_swept_misses(p, far, 0, initial, None, features, mode, iw, ma, ja, jb);
        }
    }
}

/// In general position the sweep finds exactly what the plain test of all
/// obstacle edges finds: among candidates in sweep order, each once, a
/// candidate is visible from `p` under the sweep exactly if it is another
/// node that the ring rule admits, and lies within the same-point distance
/// of `p` or no obstacle blocks the line between the two. This holds of the
/// sweep from any node, and of the optimized sweep from a node that is no
/// obstacle vertex.
pub proof fn lemma_visible_vertices_swept(
    p: NodeData,
    ws: Seq<NodeData>,
    features: Features,
    mode: VisibilityOptimizationMode,
    w: NodeData,
)
    requires
        features.wf(),
        all_valid(ws, features),
        sweeps_plainly(p, mode),
        ws.no_duplicates(),
        is_in_sweep_order(ws, features.coord_spec(p), features),
        in_general_position(features, p, ws),
        ws.contains(w) ==> sight_line_in_general_position(features, p, w, ws),
    ensures
        visible_vertices_spec(p, ws, features, mode).contains(w) <==> ws.contains(w)
            && sees_naively(features, p, w),
{
    if visible_vertices_spec(p, ws, features, mode).contains(w) {
        lemma_sweep_finds_only_what_is_plainly_visible(p, ws, features, mode, w);
    }
    if ws.contains(w) && sees_naively(features, p, w) {
        lemma_sweep_finds_what_is_plainly_visible(p, ws, features, mode, w);
    }
}

/// A graph built with the sweep joins every pair of nodes that the plain
/// test joins, where the sight line between the two is in general position:
/// what node `a` of `nodes` sees of node `b` without the sweep, it sees with
/// it.
pub proof fn lemma_sweep_sees_what_is_plainly_seen(
    features: Features,
    nodes: Seq<NodeData>,
    mode: VisibilityOptimizationMode,
    a: int,
    b: int,
)
    requires
        features.wf(),
        all_valid(nodes, features),
        0 <= a < nodes.len(),
        0 <= b < nodes.len(),
        sweeps_plainly(nodes[a], mode),
        sees(features, nodes, VisibilityOptimizationMode::Naive, a, b),
        sight_line_in_general_position(features, nodes[a], nodes[b], nodes),
    ensures
        sees(features, nodes, mode, a, b),
{
    let p = nodes[a];
    let w = nodes[b];
    let p_coord = features.coord_spec(p);
    let sorted = sweep_sorted(nodes, p_coord, features);
    lemma_visible_vertices_naive(p, nodes, features, w);
    assert forall|k: int| 0 <= k < sorted.len() implies nodes.contains(#[trigger] sorted[k]) by {
        assert(sorted.contains(sorted[k]));
        lemma_sweep_sorted_contains(nodes, p_coord, features, sorted[k]);
    }
    assert forall|k: int| 0 <= k < sorted.len() implies features.node_valid(#[trigger] sorted[k]) by {
        let x = sorted[k];
        let j = choose|j: int| 0 <= j < nodes.len() && nodes[j] == x;
        assert(features.node_valid(nodes[j]));
    }
    assert forall|x: NodeData| #[trigger] sorted.contains(x) implies nodes.contains(x) by {
        lemma_sweep_sorted_contains(nodes, p_coord, features, x);
    }
    lemma_sweep_sorted_contains(nodes, p_coord, features, w);
    lemma_sweep_finds_what_is_plainly_visible(p, sorted, features, mode, w);
}

/// In general position a graph is joined under the sweep as it is without
/// it: node `a` of `nodes` sees node `b` under the sweep exactly if it sees
/// it when every obstacle edge is tested. This holds of the sweep, and of
/// the optimized sweep where `a` is no obstacle vertex.
pub proof fn lemma_sweep_sees_as_plainly(
    features: Features,
    nodes: Seq<NodeData>,
    mode: VisibilityOptimizationMode,
    a: int,
    b: int,
)
    requires
        features.wf(),
        all_valid(nodes, features),
        nodes.no_duplicates(),
        0 <= a < nodes.len(),
        0 <= b < nodes.len(),
        sweeps_plainly(nodes[a], mode),
        in_general_position(features, nodes[a], nodes),
        sight_line_in_general_position(features, nodes[a], nodes[b], nodes),
    ensures
        sees(features, nodes, mode, a, b) == sees(features, nodes, VisibilityOptimizationMode::Naive, a, b),
{
    let p = nodes[a];
    let w = nodes[b];
    let p_coord = features.coord_spec(p);
    let sorted = sweep_sorted(nodes, p_coord, features);
    lemma_visible_vertices_naive(p, nodes, features, w);
    lemma_sweep_sorted_in_order(nodes, p_coord, features);
    lemma_sweep_sorted_permutes(nodes, p_coord, features);
    nodes.lemma_multiset_has_no_duplicates();
    sorted.lemma_multiset_has_no_duplicates_conv();
    assert forall|x: NodeData| #[trigger] sorted.contains(x) == nodes.contains(x) by {
        lemma_sweep_sorted_contains(nodes, p_coord, features, x);
    }
    assert forall|k: int| 0 <= k < sorted.len() implies features.node_valid(#[trigger] sorted[k]) by {
        let x = sorted[k];
        assert(sorted.contains(x));
        let j = choose|j: int| 0 <= j < nodes.len() && nodes[j] == x;
        assert(features.node_valid(nodes[j]));
    }
    assert(in_general_position(features, p, sorted)) by {
        assert forall|m: Mpi|
            #![trigger m.valid_for(features.obstacles)]
            m.valid_for(features.obstacles) && NodeData::PartOfObstacle(m) != p implies sorted.contains(
            NodeData::PartOfObstacle(m),
        ) by {
            assert(nodes.contains(NodeData::PartOfObstacle(m)));
        }
    }
    assert(nodes.contains(w));
    lemma_visible_vertices_swept(p, sorted, features, mode, w);
}

/// In general position visibility under the sweep is mutual: node `a` of
/// `nodes` sees node `b` exactly if `b` sees `a`. This holds of the sweep,
/// and of the optimized sweep where neither is an obstacle vertex.
pub proof fn lemma_sweep_visibility_symmetric(
    features: Features,
    nodes: Seq<NodeData>,
    mode: VisibilityOptimizationMode,
    a: int,
    b: int,
)
    requires
        features.wf(),
        all_valid(nodes, features),
        nodes.no_duplicates(),
        0 <= a < nodes.len(),
        0 <= b < nodes.len(),
        sweeps_plainly(nodes[a], mode),
        sweeps_plainly(nodes[b], mode),
        in_general_position(features, nodes[a], nodes),
        in_general_position(features, nodes[b], nodes),
        sight_line_in_general_position(features, nodes[a], nodes[b], nodes),
        sight_line_in_general_position(features, nodes[b], nodes[a], nodes),
    ensures
        sees(features, nodes, mode, a, b) == sees(features, nodes, mode, b, a),
{
    lemma_sweep_sees_as_plainly(features, nodes, mode, a, b);
    lemma_sweep_sees_as_plainly(features, nodes, mode, b, a);
    assert(nodes.contains(nodes[a]) && nodes.contains(nodes[b]));
    lemma_visibility_symmetric(features, nodes[a], nodes[b], nodes, nodes);
}

/// The nodes are in general position among the obstacles: as seen from
/// each of them, and along the sight line between any two of them.
pub open spec fn nodes_in_general_position(features: Features, nodes: Seq<NodeData>) -> bool {
    &&& forall|a: int|
        0 <= a < nodes.len() ==> in_general_position(features, #[trigger] nodes[a], nodes)
    &&& forall|a: int, b: int|
        0 <= a < nodes.len() && 0 <= b < nodes.len() ==> sight_line_in_general_position(
            features,
            #[trigger] nodes[a],
            #[trigger] nodes[b],
            nodes,
        )
}

/// In general position a graph built under the sweep has the edges of the
/// graph built on the same nodes without it. This holds of the sweep, and of
/// the optimized sweep where no node is an obstacle vertex.
pub proof fn lemma_sweep_graph_is_plain_graph(
    plain: NavGraph,
    swept: NavGraph,
    mode: VisibilityOptimizationMode,
)
    requires
        plain.wf(),
        swept.wf(),
        plain.features == swept.features,
        plain.nodes() == swept.nodes(),
        is_joined_by_sight(plain, VisibilityOptimizationMode::Naive),
        is_joined_by_sight(swept, mode),
        forall|a: int| 0 <= a < plain.nodes().len() ==> sweeps_plainly(#[trigger] plain.nodes()[a], mode),
        nodes_in_general_position(plain.features, plain.nodes()),
    ensures
        same_edges(plain, swept),
{
    let nodes = plain.nodes();
    let features = plain.features;
    assert forall|a: int, b: int| #[trigger] plain.has_edge(a, b) == swept.has_edge(a, b) by {
        if plain.has_edge(a, b) {
            lemma_edge_length_bounds(plain, a, b);
        }
        if swept.has_edge(a, b) {
            lemma_edge_length_bounds(swept, a, b);
        }
        if 0 <= a < nodes.len() && 0 <= b < nodes.len() {
            assert(sweeps_plainly(nodes[a], mode) && sweeps_plainly(nodes[b], mode));
            assert(features.node_valid(nodes[a]));
            lemma_sweep_sees_as_plainly(features, nodes, mode, a, b);
            lemma_sweep_sees_as_plainly(features, nodes, mode, b, a);
        }
    }
}

/// In general position a shortest path costs the same on the graph built
/// under the sweep as on the graph built on the same nodes without it: both
/// searches find nothing, or both find a path, and the two cost the same.
pub proof fn lemma_sweep_costs_as_plainly(
    plain: NavGraph,
    swept: NavGraph,
    mode: VisibilityOptimizationMode,
    start: int,
    end: int,
    found_plain: Option<(Edge, Vec<usize>)>,
    found_swept: Option<(Edge, Vec<usize>)>,
)
    requires
        plain.wf(),
        swept.wf(),
        plain.features == swept.features,
        plain.nodes() == swept.nodes(),
        is_joined_by_sight(plain, VisibilityOptimizationMode::Naive),
        is_joined_by_sight(swept, mode),
        forall|a: int| 0 <= a < plain.nodes().len() ==> sweeps_plainly(#[trigger] plain.nodes()[a], mode),
        nodes_in_general_position(plain.features, plain.nodes()),
        is_shortest_path(plain, start, end, found_plain),
        is_shortest_path(swept, start, end, found_swept),
    ensures
        match (found_plain, found_swept) {
            (Some((cost_plain, _)), Some((cost_swept, _))) => cost_plain.length
                == cost_swept.length,
            (None, None) => true,
            _ => false,
        },
{
    lemma_sweep_graph_is_plain_graph(plain, swept, mode);
    lemma_same_edges_same_shortest_cost(plain, swept, start, end, found_plain, found_swept);
}

/// The graph joins two of its nodes exactly if the one sees the other when
/// every obstacle edge is tested.
pub open spec fn is_joined_plainly(graph: NavGraph) -> bool {
    forall|a: int, b: int|
        0 <= a < graph.nodes().len() && 0 <= b < graph.nodes().len() ==> (#[trigger] graph.has_edge(
            a,
            b,
        ) <==> sees_naively(graph.features, graph.nodes()[a], graph.nodes()[b]))
}

/// A graph built without the sweep, or built in general position under the
/// sweep (under the optimized sweep: with no obstacle vertex among its
/// nodes), joins exactly the pairs of nodes that see each other when every
/// obstacle edge is tested.
pub proof fn lemma_built_graph_is_joined_plainly(graph: NavGraph, mode: VisibilityOptimizationMode)
    requires
        graph.wf(),
        is_joined_by_sight(graph, mode),
        mode != VisibilityOptimizationMode::Naive ==> nodes_in_general_position(
            graph.features,
            graph.nodes(),
        ) && forall|a: int|
            0 <= a < graph.nodes().len() ==> sweeps_plainly(#[trigger] graph.nodes()[a], mode),
    ensures
        is_joined_plainly(graph),
{
    let nodes = graph.nodes();
    let features = graph.features;
    let naive = VisibilityOptimizationMode::Naive;
    assert forall|a: int, b: int| 0 <= a < nodes.len() && 0 <= b < nodes.len() implies (
    #[trigger] graph.has_edge(a, b) <==> sees_naively(features, nodes[a], nodes[b])) by {
        assert(features.node_valid(nodes[a]) && features.node_valid(nodes[b]));
        if mode != naive {
            assert(sweeps_plainly(nodes[a], mode) && sweeps_plainly(nodes[b], mode));
            lemma_sweep_sees_as_plainly(features, nodes, mode, a, b);
            lemma_sweep_sees_as_plainly(features, nodes, mode, b, a);
        }
        lemma_visible_vertices_naive(nodes[a], nodes, features, nodes[b]);
        lemma_visible_vertices_naive(nodes[b], nodes, features, nodes[a]);
        lemma_sees_naively_symmetric(features, nodes[a], nodes[b]);
        assert(nodes.contains(nodes[a]) && nodes.contains(nodes[b]));
    }
}

/// A query point added to a graph that joins its nodes plainly leaves a
/// graph that joins its nodes plainly, where the point was added without the
/// sweep, or under it in general position.
pub proof fn lemma_query_point_is_joined_plainly(
    before: NavGraph,
    after: NavGraph,
    mode: VisibilityOptimizationMode,
    coord: Coordinate,
)
    requires
        before.wf(),
        after.wf(),
        is_joined_plainly(before),
        after.features.obstacles == before.features.obstacles,
        after.features.waters == before.features.waters,
        after.features.arbitrary@ == before.features.arbitrary@.push(coord),
        after.nodes() == before.nodes().push(
            NodeData::Arbitrary(before.features.arbitrary@.len() as usize),
        ),
        forall|a: int, b: int|
            0 <= a < before.nodes().len() && 0 <= b < before.nodes().len() ==> (
            #[trigger] after.has_edge(a, b) <==> before.has_edge(a, b)),
        forall|b: int|
            0 <= b < before.nodes().len() ==> (#[trigger] after.has_edge(
                before.nodes().len() as int,
                b,
            ) <==> visible_vertices_spec(
                NodeData::Arbitrary(before.features.arbitrary@.len() as usize),
                ordered_for_sweep(before.nodes(), coord, after.features, mode),
                after.features,
                mode,
            ).contains(before.nodes()[b])),
        mode != VisibilityOptimizationMode::Naive ==> in_general_position(
            after.features,
            NodeData::Arbitrary(before.features.arbitrary@.len() as usize),
            before.nodes(),
        ) && forall|b: int|
            0 <= b < before.nodes().len() ==> sight_line_in_general_position(
                after.features,
                NodeData::Arbitrary(before.features.arbitrary@.len() as usize),
                #[trigger] before.nodes()[b],
                before.nodes(),
            ),
    ensures
        is_joined_plainly(after),
{
    let old_nodes = before.nodes();
    let nodes = after.nodes();
    let n = old_nodes.len() as int;
    let features = after.features;
    let p = NodeData::Arbitrary(before.features.arbitrary@.len() as usize);
    let naive = VisibilityOptimizationMode::Naive;
    assert(before.features.arbitrary.len() <= usize::MAX);
    assert(features.coord_spec(p) == coord);
    assert forall|i: int| 0 <= i < n implies features.node_valid(#[trigger] old_nodes[i])
        && features.coord_spec(old_nodes[i]) == before.features.coord_spec(old_nodes[i])
        && old_nodes[i] != p by {
        assert(before.features.node_valid(old_nodes[i]));
    }
    let sorted = ordered_for_sweep(old_nodes, coord, features, mode);
    if mode != naive {
        lemma_sweep_sorted_in_order(old_nodes, coord, features);
        lemma_sweep_sorted_permutes(old_nodes, coord, features);
        old_nodes.lemma_multiset_has_no_duplicates();
        sorted.lemma_multiset_has_no_duplicates_conv();
        assert forall|x: NodeData| #[trigger] sorted.contains(x) == old_nodes.contains(x) by {
            lemma_sweep_sorted_contains(old_nodes, coord, features, x);
        }
        assert forall|k: int| 0 <= k < sorted.len() implies features.node_valid(
            #[trigger] sorted[k],
        ) by {
            let x = sorted[k];
            assert(sorted.contains(x));
            let j = choose|j: int| 0 <= j < old_nodes.len() && old_nodes[j] == x;
        }
        assert(in_general_position(features, p, sorted)) by {
            assert forall|m: Mpi|
                #![trigger m.valid_for(features.obstacles)]
                m.valid_for(features.obstacles) && NodeData::PartOfObstacle(m) != p implies sorted.contains(
                NodeData::PartOfObstacle(m),
            ) by {
                assert(old_nodes.contains(NodeData::PartOfObstacle(m)));
            }
        }
    }
    assert forall|a: int, b: int| 0 <= a < nodes.len() && 0 <= b < nodes.len() implies (
    #[trigger] after.has_edge(a, b) <==> sees_naively(features, nodes[a], nodes[b])) by {
        crate::nav_graph::paths::lemma_has_edge_symmetric(after, a, b);
        lemma_sees_naively_symmetric(features, nodes[a], nodes[b]);
        if a < n && b < n {
            assert(before.has_edge(a, b) <==> sees_naively(
                before.features,
                old_nodes[a],
                old_nodes[b],
            ));
            assert(nodes[a] == old_nodes[a] && nodes[b] == old_nodes[b]);
        } else if a == n && b == n {
            if after.has_edge(a, b) {
                let k = choose|k: int|
                    0 <= k < after.edge_list().len() && super::graph_store::joins(
                        #[trigger] after.edge_list()[k],
                        a,
                        b,
                    );
                assert(after.edge_wf(after.edge_list()[k]));
            }
        } else {
            let o = if a == n {
                b
            } else {
                a
            };
            let w = old_nodes[o];
            assert(old_nodes.contains(w));
            assert(nodes[o] == w && nodes[n] == p);
            if mode != naive {
                assert(sorted.contains(w));
                lemma_visible_vertices_swept(p, sorted, features, mode, w);
            } else {
                lemma_visible_vertices_naive(p, old_nodes, features, w);
            }
            assert(after.has_edge(n, o) <==> sees_naively(features, p, w));
            crate::nav_graph::paths::lemma_has_edge_symmetric(after, n, o);
            lemma_sees_naively_symmetric(features, p, w);
        }
    }
}

/// Two graphs over the same features and nodes that both join their nodes
/// plainly have the same edges, so that a shortest path costs the same on
/// the one as on the other, however each was built.
pub proof fn lemma_joined_plainly_same_costs(
    first: NavGraph,
    second: NavGraph,
    start: int,
    end: int,
    found_first: Option<(Edge, Vec<usize>)>,
    found_second: Option<(Edge, Vec<usize>)>,
)
    requires
        first.wf(),
        second.wf(),
        first.features == second.features,
        first.nodes() == second.nodes(),
        is_joined_plainly(first),
        is_joined_plainly(second),
        is_shortest_path(first, start, end, found_first),
        is_shortest_path(second, start, end, found_second),
    ensures
        same_edges(first, second),
        match (found_first, found_second) {
            (Some((cost_first, _)), Some((cost_second, _))) => cost_first.length
                == cost_second.length,
            (None, None) => true,
            _ => false,
        },
{
    assert forall|a: int, b: int| #[trigger] first.has_edge(a, b) == second.has_edge(a, b) by {
        if first.has_edge(a, b) {
            lemma_edge_length_bounds(first, a, b);
        }
        if second.has_edge(a, b) {
            lemma_edge_length_bounds(second, a, b);
        }
    }
    lemma_same_edges_same_shortest_cost(first, second, start, end, found_first, found_second);
}

} // verus!
