//! Algorithms to compute the visibility of points in the plane for the purpose
//! of creating a visibility/navigation graph: the rotational sweep of
//! de Berg et al., "Computational Geometry: Algorithms and Applications",
//! with the active edges kept as an unordered collection.

use super::graph_types::{Features, NodeData};
use crate::coord_ext::{distance_squared, sweep_before, sweeps_before};
use crate::geometry::{
    in_segment_interior, orient2d, orientation, Coordinate, Line, MultiPolygon, Orientation,
};
use crate::intersection::{
    get_proper_ray_line_intersection, line_intersection, lines_intersect,
    lines_intersect_properly, proper_line_intersection, ray_intersects_properly,
};
use crate::mpi::{enters_polygon_locally, intersects_polygon_locally, Mpi, NeighborsGetter};
use vstd::prelude::*;

verus! {

/// Maximum distance between two points for them to be considered the same point
/// and thus trivially visible to each other. Expressed in working units: half
/// a metre.
pub const SAME_POINT_VISIBILITY_DISTANCE: u64 = 50;

/// How much the search for visible vertices is helped along.
#[derive(PartialEq, Eq, Structural, Clone, Copy, Debug)]
pub enum VisibilityOptimizationMode {
    /// No optimizations
    Naive,
    /// Sweep optimization (de Berg et al. 2008)
    Sweep,
    /// Sweep with inner-outer ring culling and `in front` angle range optimizations
    OptimizedSweep,
}

/// The candidate handled just before the current one, and whether it was
/// found visible.
#[derive(Clone, Copy, Debug, PartialEq, Eq, Structural)]
pub struct WPrevInfo {
    pub w_prev: NodeData,
    pub w_prev_visible: bool,
}

impl WPrevInfo {
    pub fn new(w_prev: NodeData, w_prev_visible: bool) -> (info: WPrevInfo)
        ensures
            info.w_prev == w_prev,
            info.w_prev_visible == w_prev_visible,
    {
        WPrevInfo { w_prev, w_prev_visible }
    }
}

/// The edge has `c` as one of its ends.
pub open spec fn incident_at(e: Line, c: Coordinate) -> bool {
    e.start == c || e.end == c
}

/// Some edge that does not end in `w` properly crosses `sight`.
pub open spec fn crossed_properly(edges: Seq<Line>, sight: Line, w: Coordinate) -> bool {
    exists|i: int|
        0 <= i < edges.len() && !incident_at(#[trigger] edges[i], w) && lines_intersect_properly(
            edges[i],
            sight,
        )
}

/// Some edge that does not end in `w` meets `sight`.
pub open spec fn met_away_from(edges: Seq<Line>, sight: Line, w: Coordinate) -> bool {
    exists|i: int|
        0 <= i < edges.len() && !incident_at(#[trigger] edges[i], w) && lines_intersect(
            edges[i],
            sight,
        )
}

/// Some edge meets `sight`.
pub open spec fn met(edges: Seq<Line>, sight: Line) -> bool {
    exists|i: int| 0 <= i < edges.len() && lines_intersect(#[trigger] edges[i], sight)
}

/// Whether `w` is visible from `p`, given the candidate handled before it and
/// the obstacle edges that may lie in between.
///
/// A sight line that enters the obstacle at either end is blocked. Without
/// the sweep, the line is blocked by any proper crossing with an edge. With
/// it, a previous candidate on the sight line decides: hidden, it hides `w`;
/// visible, only the stretch from it to `w` is tested. Otherwise any edge that
/// meets the sight line, other than those ending in `w`, blocks it.
pub open spec fn is_visible_from_spec(
    p: NodeData,
    w_prev_info: Option<WPrevInfo>,
    w: NodeData,
    possible_obstacle_edges: Seq<Line>,
    features: Features,
    optimization_mode: VisibilityOptimizationMode,
) -> bool {
    let p_coord = features.coord_spec(p);
    let w_coord = features.coord_spec(w);
    let p_w = Line { start: p_coord, end: w_coord };
    if optimization_mode != VisibilityOptimizationMode::OptimizedSweep && p is PartOfObstacle
        && enters_polygon_locally(p->PartOfObstacle_0, w_coord, features.obstacles) {
        false
    } else if w is PartOfObstacle && enters_polygon_locally(
        w->PartOfObstacle_0,
        p_coord,
        features.obstacles,
    ) {
        false
    } else if optimization_mode == VisibilityOptimizationMode::Naive {
        !crossed_properly(possible_obstacle_edges, p_w, w_coord)
    } else if w_prev_info is Some && in_segment_interior(
        features.coord_spec(w_prev_info->0.w_prev),
        p_coord,
        w_coord,
    ) {
        w_prev_info->0.w_prev_visible && !met(
            possible_obstacle_edges,
            Line { start: features.coord_spec(w_prev_info->0.w_prev), end: w_coord },
        )
    } else {
        !met_away_from(possible_obstacle_edges, p_w, w_coord)
    }
}

fn any_edge_crosses_properly(edges: &Vec<Line>, sight: Line, w: Coordinate) -> (r: bool)
    ensures
        r == crossed_properly(edges@, sight, w),
{
    let mut i: usize = 0;
    while i < edges.len()
        invariant
            i <= edges@.len(),
            forall|k: int|
                0 <= k < i ==> !(!incident_at(#[trigger] edges@[k], w) && lines_intersect_properly(
                    edges@[k],
                    sight,
                )),
        decreases edges@.len() - i,
    {
        let e = edges[i];
        if !(e.start == w || e.end == w) && proper_line_intersection(e, sight) {
            return true;
        }
        i += 1;
    }
    false
}

fn any_edge_meets_away_from(edges: &Vec<Line>, sight: Line, w: Coordinate) -> (r: bool)
    ensures
        r == met_away_from(edges@, sight, w),
{
    let mut i: usize = 0;
    while i < edges.len()
        invariant
            i <= edges@.len(),
            forall|k: int|
                0 <= k < i ==> !(!incident_at(#[trigger] edges@[k], w) && lines_intersect(
                    edges@[k],
                    sight,
                )),
        decreases edges@.len() - i,
    {
        let e = edges[i];
        if !(e.start == w || e.end == w) && line_intersection(e, sight) {
            return true;
        }
        i += 1;
    }
    false
}

fn any_edge_meets(edges: &Vec<Line>, sight: Line) -> (r: bool)
    ensures
        r == met(edges@, sight),
{
    let mut i: usize = 0;
    while i < edges.len()
        invariant
            i <= edges@.len(),
            forall|k: int| 0 <= k < i ==> !lines_intersect(#[trigger] edges@[k], sight),
        decreases edges@.len() - i,
    {
        if line_intersection(edges[i], sight) {
            return true;
        }
        i += 1;
    }
    false
}

/// Whether `w` is visible from `p`: the test of the rotational sweep, run
/// against the obstacle edges that may lie in between.
pub fn is_visible_from(
    p: &NodeData,
    w_prev_info: Option<&WPrevInfo>,
    w: &NodeData,
    possible_obstacle_edges: &Vec<Line>,
    features: &Features,
    optimization_mode: VisibilityOptimizationMode,
) -> (visible: bool)
    requires
        features.node_valid(*p),
        features.node_valid(*w),
        w_prev_info is Some ==> features.node_valid(w_prev_info->0.w_prev),
    ensures
        visible == is_visible_from_spec(
            *p,
            match w_prev_info {
                Some(info) => Some(*info),
                None => None,
            },
            *w,
            possible_obstacle_edges@,
            *features,
            optimization_mode,
        ),
{
    let p_coord = features.coord(p);
    let w_coord = features.coord(w);

    if optimization_mode != VisibilityOptimizationMode::OptimizedSweep {
        if let NodeData::PartOfObstacle(p_mpi) = p {
            if intersects_polygon_locally(p_mpi, w_coord, &features.obstacles) {
                return false;
            }
        }
    }
    if let NodeData::PartOfObstacle(w_mpi) = w {
        // 1. if p-w intersects the interior of the obstacle of which w is a
        // vertex, locally at w
        if intersects_polygon_locally(w_mpi, p_coord, &features.obstacles) {
            // 2. then return false
            return false;
        }
    }
    let p_w = Line::new(p_coord, w_coord);

    if optimization_mode == VisibilityOptimizationMode::Naive {
        return !any_edge_crosses_properly(possible_obstacle_edges, p_w, w_coord);
    }
    // 3. if i = 1 or w_prev is not on the segment p-w
    if let Some(info) = w_prev_info {
        let w_prev_coord = features.coord(&info.w_prev);
        if p_w.contains(w_prev_coord) {
            // 8. if w_prev is not visible
            if !info.w_prev_visible {
                return false;
            }
            // 10. Search in T for an edge e that intersects w_prev-w.
            // 11. if e exists
            // 12.   then return false
            // 13.   else return true
            let w_prev_w = Line::new(w_prev_coord, w_coord);
            return !any_edge_meets(possible_obstacle_edges, w_prev_w);
        }
    }
    // 4. Search in T for the edge e in the leftmost leaf.
    // 5.   if e exists and p-w intersects e
    // 6.     then return false
    // 7.     else return true
    //
    // There is no point in keeping T sorted: finding the leftmost edge for
    // each w would cost as much as scanning T, so we just iterate over all
    // the edges in search for an intersection.
    !any_edge_meets_away_from(possible_obstacle_edges, p_w, w_coord)
}

/// `i` is the first position of `e` in `edges`.
pub open spec fn is_first_position(edges: Seq<Line>, e: Line, i: int) -> bool {
    &&& 0 <= i < edges.len()
    &&& edges[i] == e
    &&& forall|j: int| 0 <= j < i ==> edges[j] != e
}

/// The first position of `e` in `edges`, where it occurs.
pub open spec fn first_position(edges: Seq<Line>, e: Line) -> int {
    choose|i: int| is_first_position(edges, e, i)
}

/// `edges` with the entry at `i` replaced by the last entry, and the last
/// entry dropped.
pub open spec fn swap_removed(edges: Seq<Line>, i: int) -> Seq<Line> {
    edges.update(i, edges.last()).drop_last()
}

/// `edges` with `e` present (`keep`) or with its first occurrence removed: an
/// absent edge is appended at the end, an edge to remove has its place taken
/// by the last entry.
pub open spec fn with_edge_toggled(edges: Seq<Line>, e: Line, keep: bool) -> Seq<Line> {
    if keep {
        if edges.contains(e) {
            edges
        } else {
            edges.push(e)
        }
    } else {
        if edges.contains(e) {
            swap_removed(edges, first_position(edges, e))
        } else {
            edges
        }
    }
}

/// The active edges after the sweep from `p_coord` has passed the obstacle
/// vertex `w_mpi`: of the two ring edges at the vertex, first the one to the
/// left neighbor, then the one from the right neighbor, each is kept when its
/// far end lies counter-clockwise of the half-line from `p_coord` through the
/// vertex, and dropped otherwise.
pub open spec fn updated_obstacle_edges(
    p_coord: Coordinate,
    w_mpi: Mpi,
    obstacles: MultiPolygon,
    edges: Seq<Line>,
) -> Seq<Line> {
    let w_coord = w_mpi.coord_in(obstacles);
    let w_left_coord = w_mpi.left_in(obstacles).coord_in(obstacles);
    let w_right_coord = w_mpi.right_in(obstacles).coord_in(obstacles);
    let after_left = with_edge_toggled(
        edges,
        Line { start: w_coord, end: w_left_coord },
        orientation(p_coord, w_coord, w_left_coord) == Orientation::CounterClockwise,
    );
    with_edge_toggled(
        after_left,
        Line { start: w_right_coord, end: w_coord },
        orientation(p_coord, w_coord, w_right_coord) == Orientation::CounterClockwise,
    )
}

fn find_edge(edges: &Vec<Line>, e: Line) -> (r: Option<usize>)
    ensures
        match r {
            Some(i) => is_first_position(edges@, e, i as int),
            None => !edges@.contains(e),
        },
{
    let mut i: usize = 0;
    while i < edges.len()
        invariant
            i <= edges@.len(),
            forall|j: int| 0 <= j < i ==> edges@[j] != e,
        decreases edges@.len() - i,
    {
        if edges[i] == e {
            return Some(i);
        }
        i += 1;
    }
    None
}

fn toggle_edge(edges: &mut Vec<Line>, e: Line, keep: bool)
    ensures
        final(edges)@ == with_edge_toggled(old(edges)@, e, keep),
{
    let existing_index = find_edge(edges, e);
    match existing_index {
        Some(i) => {
            assert(edges@.contains(e));
            if !keep {
                edges.swap_remove(i);
                assert(edges@ =~= swap_removed(old(edges)@, i as int));
            }
        },
        None => {
            if keep {
                edges.push(e);
            }
        },
    }
}

/// Implements steps 6 and 7 of the VisibleVertices() algorithm by de Berg et
/// al..
///
/// 6. Insert into T the obstacle edges incident to w that lie on the
/// counter-clockwise side of the half-line from p to w.
/// ...and...
/// 7. Delete from T the obstacle edges incident to w that lie on the
/// clockwise side of the half-line from p to w.
pub fn update_possible_obstacle_edges(
    p_coord: Coordinate,
    w_mpi: &Mpi,
    obstacles: &MultiPolygon,
    possible_obstacle_edges: &mut Vec<Line>,
)
    requires
        w_mpi.valid_for(*obstacles),
    ensures
        final(possible_obstacle_edges)@ == updated_obstacle_edges(
            p_coord,
            *w_mpi,
            *obstacles,
            old(possible_obstacle_edges)@,
        ),
{
    proof {
        crate::mpi::lemma_neighbors_valid(*w_mpi, *obstacles);
    }
    let w_coord = obstacles.index(w_mpi);
    let w_neighbors = w_mpi.neighbors(obstacles);
    let w_left_coord = obstacles.index(&w_neighbors.left);
    let w_right_coord = obstacles.index(&w_neighbors.right);

    // The order of `Line::start` and `Line::end` needs to be the same as in
    // the lines returned by `MultiPolygon::lines`, or the lookup would fail.
    // The line is oriented right to left.
    let left_incident_edge = Line::new(w_coord, w_left_coord);
    // Same here; right to left.
    let right_incident_edge = Line::new(w_right_coord, w_coord);

    toggle_edge(
        possible_obstacle_edges,
        left_incident_edge,
        orient2d(p_coord, w_coord, w_left_coord) == Orientation::CounterClockwise,
    );
    toggle_edge(
        possible_obstacle_edges,
        right_incident_edge,
        orient2d(p_coord, w_coord, w_right_coord) == Orientation::CounterClockwise,
    );
}

/// `x` comes strictly before `y` in the sweep around `p_coord`.
pub open spec fn node_sweep_before(p_coord: Coordinate, features: Features, x: NodeData, y: NodeData) -> bool {
    sweep_before(p_coord, features.coord_spec(x), features.coord_spec(y))
}

/// `s` with `x` put in behind every entry that does not come strictly after
/// it, looking from the end of `s`.
pub open spec fn inserted_in_order(s: Seq<NodeData>, x: NodeData, p_coord: Coordinate, features: Features) -> Seq<
    NodeData,
>
    decreases s.len(),
{
    if s.len() == 0 {
        seq![x]
    } else if node_sweep_before(p_coord, features, x, s.last()) {
        inserted_in_order(s.drop_last(), x, p_coord, features).push(s.last())
    } else {
        s.push(x)
    }
}

/// The entries of `s` in sweep order around `p_coord`: by pseudo-angle, then
/// by distance. Entries that tie keep the order they have in `s`.
pub open spec fn sweep_sorted(s: Seq<NodeData>, p_coord: Coordinate, features: Features) -> Seq<NodeData>
    decreases s.len(),
{
    if s.len() == 0 {
        s
    } else {
        inserted_in_order(sweep_sorted(s.drop_last(), p_coord, features), s.last(), p_coord, features)
    }
}

/// Inserting keeps every entry and adds exactly the new one.
pub proof fn lemma_inserted_in_order(s: Seq<NodeData>, x: NodeData, p_coord: Coordinate, features: Features)
    ensures
        inserted_in_order(s, x, p_coord, features).len() == s.len() + 1,
        inserted_in_order(s, x, p_coord, features).to_multiset() == s.to_multiset().insert(x),
    decreases s.len(),
{
    broadcast use vstd::seq_lib::group_to_multiset_ensures;

    if s.len() == 0 {
        assert(seq![x] =~= Seq::<NodeData>::empty().push(x));
        assert(s =~= Seq::<NodeData>::empty());
    } else if node_sweep_before(p_coord, features, x, s.last()) {
        lemma_inserted_in_order(s.drop_last(), x, p_coord, features);
        assert(s =~= s.drop_last().push(s.last()));
        assert(s.drop_last().to_multiset().insert(x).insert(s.last()) =~= s.drop_last().to_multiset().insert(
            s.last(),
        ).insert(x));
    } else {
    }
}

/// The sweep order rearranges: nothing is lost, added or repeated.
pub proof fn lemma_sweep_sorted_permutes(s: Seq<NodeData>, p_coord: Coordinate, features: Features)
    ensures
        sweep_sorted(s, p_coord, features).len() == s.len(),
        sweep_sorted(s, p_coord, features).to_multiset() == s.to_multiset(),
    decreases s.len(),
{
    broadcast use vstd::seq_lib::group_to_multiset_ensures;

    if s.len() > 0 {
        lemma_sweep_sorted_permutes(s.drop_last(), p_coord, features);
        lemma_inserted_in_order(
            sweep_sorted(s.drop_last(), p_coord, features),
            s.last(),
            p_coord,
            features,
        );
        assert(s =~= s.drop_last().push(s.last()));
    }
}

/// No entry of `s` comes, in the sweep around `p_coord`, strictly before an
/// entry that stands before it.
pub open spec fn is_in_sweep_order(s: Seq<NodeData>, p_coord: Coordinate, features: Features) -> bool {
    forall|i: int, j: int|
        0 <= i < j < s.len() ==> !node_sweep_before(p_coord, features, #[trigger] s[j], #[trigger] s[i])
}

/// Inserting into a sequence in sweep order leaves it in sweep order.
pub proof fn lemma_inserted_in_sweep_order(
    s: Seq<NodeData>,
    x: NodeData,
    p_coord: Coordinate,
    features: Features,
)
    requires
        is_in_sweep_order(s, p_coord, features),
    ensures
        is_in_sweep_order(inserted_in_order(s, x, p_coord, features), p_coord, features),
    decreases s.len(),
{
    broadcast use vstd::seq_lib::group_to_multiset_ensures;

    let t = inserted_in_order(s, x, p_coord, features);
    if s.len() == 0 {
    } else if node_sweep_before(p_coord, features, x, s.last()) {
        let head = inserted_in_order(s.drop_last(), x, p_coord, features);
        assert(is_in_sweep_order(s.drop_last(), p_coord, features)) by {
            assert forall|i: int, j: int| 0 <= i < j < s.drop_last().len() implies !node_sweep_before(
                p_coord,
                features,
                #[trigger] s.drop_last()[j],
                #[trigger] s.drop_last()[i],
            ) by {
                assert(!node_sweep_before(p_coord, features, s[j], s[i]));
            }
        }
        lemma_inserted_in_sweep_order(s.drop_last(), x, p_coord, features);
        lemma_inserted_in_order(s.drop_last(), x, p_coord, features);
        assert forall|i: int, j: int| 0 <= i < j < t.len() implies !node_sweep_before(
            p_coord,
            features,
            #[trigger] t[j],
            #[trigger] t[i],
        ) by {
            if j < head.len() {
                assert(!node_sweep_before(p_coord, features, head[j], head[i]));
            } else {
                assert(t[j] == s.last());
                assert(t[i] == head[i]);
                assert(head.to_multiset().count(head[i]) > 0);
                if head[i] == x {
                    crate::coord_ext::lemma_sweep_order(
                        p_coord,
                        features.coord_spec(x),
                        features.coord_spec(s.last()),
                        features.coord_spec(x),
                    );
                } else {
                    assert(s.drop_last().to_multiset().count(head[i]) > 0);
                    assert(s.drop_last().contains(head[i]));
                    let k = choose|k: int| 0 <= k < s.drop_last().len() && s.drop_last()[k] == head[i];
                    assert(!node_sweep_before(p_coord, features, s[s.len() - 1], s[k]));
                }
            }
        }
    } else {
        assert forall|i: int, j: int| 0 <= i < j < t.len() implies !node_sweep_before(
            p_coord,
            features,
            #[trigger] t[j],
            #[trigger] t[i],
        ) by {
            if j < s.len() {
                assert(!node_sweep_before(p_coord, features, s[j], s[i]));
            } else if i < s.len() - 1 {
                assert(!node_sweep_before(p_coord, features, s[s.len() - 1], s[i]));
                crate::coord_ext::lemma_sweep_order(
                    p_coord,
                    features.coord_spec(s[i]),
                    features.coord_spec(s.last()),
                    features.coord_spec(x),
                );
            }
        }
    }
}

/// The sorted sequence is in sweep order.
pub proof fn lemma_sweep_sorted_in_order(s: Seq<NodeData>, p_coord: Coordinate, features: Features)
    ensures
        is_in_sweep_order(sweep_sorted(s, p_coord, features), p_coord, features),
    decreases s.len(),
{
    if s.len() > 0 {
        lemma_sweep_sorted_in_order(s.drop_last(), p_coord, features);
        lemma_inserted_in_sweep_order(
            sweep_sorted(s.drop_last(), p_coord, features),
            s.last(),
            p_coord,
            features,
        );
    }
}

/// The sorted sequence holds an entry exactly if the unsorted one does.
pub proof fn lemma_sweep_sorted_contains(s: Seq<NodeData>, p_coord: Coordinate, features: Features, x: NodeData)
    ensures
        sweep_sorted(s, p_coord, features).contains(x) == s.contains(x),
{
    broadcast use vstd::seq_lib::group_to_multiset_ensures;

    lemma_sweep_sorted_permutes(s, p_coord, features);
    let t = sweep_sorted(s, p_coord, features);
    assert(t.contains(x) <==> t.to_multiset().count(x) > 0);
    assert(s.contains(x) <==> s.to_multiset().count(x) > 0);
}

/// Sorts `ws` in place into sweep order around `p_coord`.
///
/// Insertion sort: consecutive sweeps see nearly the same order, which it
/// finishes in close to linear time.
pub fn sort_for_sweep(ws: &mut Vec<NodeData>, p_coord: Coordinate, features: &Features)
    requires
        forall|i: int| 0 <= i < old(ws)@.len() ==> features.node_valid(#[trigger] old(ws)@[i]),
    ensures
        final(ws)@ == sweep_sorted(old(ws)@, p_coord, *features),
        forall|i: int| 0 <= i < final(ws)@.len() ==> features.node_valid(#[trigger] final(ws)@[i]),
{
    let n: usize = ws.len();
    let mut i: usize = 0;
    assert(old(ws)@.take(0) =~= Seq::<NodeData>::empty());
    assert(ws@.take(0) =~= Seq::<NodeData>::empty());
    while i < n
        invariant
            n == ws@.len(),
            n == old(ws)@.len(),
            i <= n,
            ws@.take(i as int) == sweep_sorted(old(ws)@.take(i as int), p_coord, *features),
            ws@.skip(i as int) == old(ws)@.skip(i as int),
            forall|k: int| 0 <= k < ws@.len() ==> features.node_valid(#[trigger] ws@[k]),
        decreases n - i,
    {
        let x = ws[i];
        let x_coord = features.coord(&x);
        let ghost sorted = ws@.take(i as int);
        let ghost rest = ws@.skip(i as int + 1);
        assert(x == old(ws)@.skip(i as int)[0]);
        let mut j: usize = i;
        let mut searching: bool = true;
        assert(sorted.take(j as int) =~= sorted);
        assert(sorted.skip(j as int) =~= Seq::<NodeData>::empty());
        while searching
            invariant
                n == ws@.len(),
                i < n,
                j <= i,
                sorted.len() == i,
                features.node_valid(x),
                x_coord == features.coord_spec(x),
                ws@.take(j as int) == sorted.take(j as int),
                forall|k: int| j < k <= i ==> ws@[k] == sorted[k - 1],
                ws@.skip(i as int + 1) == rest,
                forall|k: int| 0 <= k < ws@.len() ==> features.node_valid(#[trigger] ws@[k]),
                inserted_in_order(sorted, x, p_coord, *features) == inserted_in_order(
                    sorted.take(j as int),
                    x,
                    p_coord,
                    *features,
                ) + sorted.skip(j as int),
                !searching ==> inserted_in_order(sorted.take(j as int), x, p_coord, *features)
                    == sorted.take(j as int).push(x),
            decreases j + if searching { 1int } else { 0int },
        {
            if j == 0 {
                searching = false;
                assert(sorted.take(0) =~= Seq::<NodeData>::empty());
                assert(seq![x] =~= Seq::<NodeData>::empty().push(x));
            } else {
                let y = ws[j - 1];
                assert(y == ws@.take(j as int)[j - 1]);
                assert(y == sorted.take(j as int).last());
                if sweeps_before(&p_coord, &x_coord, &features.coord(&y)) {
                    ws.set(j, y);
                    proof {
                        assert(sorted.take(j as int).drop_last() =~= sorted.take(j - 1));
                        assert(inserted_in_order(sorted.take(j - 1), x, p_coord, *features).push(y)
                            + sorted.skip(j as int) =~= inserted_in_order(
                            sorted.take(j - 1),
                            x,
                            p_coord,
                            *features,
                        ) + sorted.skip(j - 1));
                        assert(ws@.take(j - 1) =~= sorted.take(j - 1));
                        assert(ws@.skip(i as int + 1) =~= rest);
                    }
                    j -= 1;
                } else {
                    searching = false;
                }
            }
        }
        ws.set(j, x);
        proof {
            assert(ws@.take(i as int + 1) =~= sorted.take(j as int).push(x) + sorted.skip(j as int));
            assert(old(ws)@.take(i as int + 1).drop_last() =~= old(ws)@.take(i as int));
            assert(old(ws)@.take(i as int + 1).last() == x);
            assert(ws@.skip(i as int + 1) =~= rest);
            assert(rest =~= old(ws)@.skip(i as int).skip(1));
            assert(old(ws)@.skip(i as int).skip(1) =~= old(ws)@.skip(i as int + 1));
        }
        i += 1;
    }
    assert(ws@.take(n as int) =~= ws@);
    assert(old(ws)@.take(n as int) =~= old(ws)@);
}

/// The nodes other than `p`.
pub open spec fn is_other_than(p: NodeData) -> spec_fn(NodeData) -> bool {
    |w: NodeData| w != p
}

/// Two vertices of the same obstacle polygon can only see each other along
/// one ring; every other pair of nodes may.
pub open spec fn admissible_pair(p: NodeData, w: NodeData) -> bool {
    !(p is PartOfObstacle && w is PartOfObstacle && p->PartOfObstacle_0.polygon_index
        == w->PartOfObstacle_0.polygon_index && p->PartOfObstacle_0.ring_index
        != w->PartOfObstacle_0.ring_index)
}

/// The nodes that `p` may see by the ring rule.
pub open spec fn is_admissible_from(p: NodeData) -> spec_fn(NodeData) -> bool {
    |w: NodeData| admissible_pair(p, w)
}

/// The two coordinates are within the same-point distance of each other.
pub open spec fn is_same_location(a: Coordinate, b: Coordinate) -> bool {
    distance_squared(a, b) <= SAME_POINT_VISIBILITY_DISTANCE * SAME_POINT_VISIBILITY_DISTANCE
}

/// The nodes within the same-point distance of `p_coord`.
pub open spec fn is_near(p_coord: Coordinate, features: Features) -> spec_fn(NodeData) -> bool {
    |w: NodeData| is_same_location(p_coord, features.coord_spec(w))
}

/// The nodes farther from `p_coord` than the same-point distance.
pub open spec fn is_far(p_coord: Coordinate, features: Features) -> spec_fn(NodeData) -> bool {
    |w: NodeData| !is_same_location(p_coord, features.coord_spec(w))
}

/// `i` is the first position of `x` in `s`.
pub open spec fn is_first_node_position(s: Seq<NodeData>, x: NodeData, i: int) -> bool {
    &&& 0 <= i < s.len()
    &&& s[i] == x
    &&& forall|j: int| 0 <= j < i ==> s[j] != x
}

/// The first position of `x` in `s`, where it occurs.
pub open spec fn first_node_position(s: Seq<NodeData>, x: NodeData) -> int {
    choose|i: int| is_first_node_position(s, x, i)
}

/// `base` turned so that the first occurrence of `right` leads, and cut off
/// behind the first occurrence of `left` from there on. Without `right` the
/// order stays; without `left` nothing is cut off.
pub open spec fn wedge(base: Seq<NodeData>, right: NodeData, left: NodeData) -> Seq<NodeData> {
    let start = if base.contains(right) {
        first_node_position(base, right)
    } else {
        0
    };
    let rotated = base.skip(start) + base.take(start);
    if rotated.contains(left) {
        rotated.take(first_node_position(rotated, left) + 1)
    } else {
        rotated
    }
}

/// The candidates that the visibility test is run on, in order: every node
/// of `ws` but `p`; for an obstacle vertex under the optimized sweep only
/// those in the wedge between its ring neighbors; and of these the ones that
/// the ring rule admits.
pub open spec fn applicable_candidates(
    p: NodeData,
    ws: Seq<NodeData>,
    features: Features,
    optimization_mode: VisibilityOptimizationMode,
) -> Seq<NodeData> {
    let others = ws.filter(is_other_than(p));
    let in_front = if optimization_mode == VisibilityOptimizationMode::OptimizedSweep
        && p is PartOfObstacle {
        wedge(
            others,
            NodeData::PartOfObstacle(p->PartOfObstacle_0.right_in(features.obstacles)),
            NodeData::PartOfObstacle(p->PartOfObstacle_0.left_in(features.obstacles)),
        )
    } else {
        others
    };
    in_front.filter(is_admissible_from(p))
}

/// The edges that the half-line from `origin` through `through` properly
/// crosses.
pub open spec fn crossed_by_ray(origin: Coordinate, through: Coordinate) -> spec_fn(Line) -> bool {
    |e: Line| ray_intersects_properly(origin, through, e)
}

/// The obstacle edges the sweep starts with: all of them without the sweep;
/// with it, those properly crossed by the half-line from `p_coord` towards
/// the first candidate.
pub open spec fn initial_obstacle_edges(
    p_coord: Coordinate,
    far: Seq<NodeData>,
    features: Features,
    optimization_mode: VisibilityOptimizationMode,
) -> Seq<Line> {
    if optimization_mode == VisibilityOptimizationMode::Naive {
        features.obstacles.edges()
    } else if far.len() == 0 {
        Seq::empty()
    } else {
        features.obstacles.edges().filter(crossed_by_ray(p_coord, features.coord_spec(far[0])))
    }
}

/// The candidates from position `i` on that are found visible, when the
/// sweep arrives there with the active edges `edges` and the previous
/// candidate `prev`. Each candidate is tested, then, under a sweep, the edges
/// at an obstacle vertex are updated before the next candidate is tested.
pub open spec fn swept(
    p: NodeData,
    far: Seq<NodeData>,
    i: int,
    edges: Seq<Line>,
    prev: Option<WPrevInfo>,
    features: Features,
    optimization_mode: VisibilityOptimizationMode,
) -> Seq<NodeData>
    decreases far.len() - i,
{
    if i < 0 || i >= far.len() {
        Seq::empty()
    } else {
        let w = far[i];
        let visible = is_visible_from_spec(p, prev, w, edges, features, optimization_mode);
        let next_edges = if optimization_mode != VisibilityOptimizationMode::Naive
            && w is PartOfObstacle {
            updated_obstacle_edges(
                features.coord_spec(p),
                w->PartOfObstacle_0,
                features.obstacles,
                edges,
            )
        } else {
            edges
        };
        let rest = swept(
            p,
            far,
            i + 1,
            next_edges,
            Some(WPrevInfo { w_prev: w, w_prev_visible: visible }),
            features,
            optimization_mode,
        );
        if visible {
            seq![w] + rest
        } else {
            rest
        }
    }
}

/// The order `visible_vertices` leaves its candidate list in: untouched
/// without the sweep, in sweep order around `p_coord` with it.
pub open spec fn ordered_for_sweep(
    ws: Seq<NodeData>,
    p_coord: Coordinate,
    features: Features,
    optimization_mode: VisibilityOptimizationMode,
) -> Seq<NodeData> {
    if optimization_mode == VisibilityOptimizationMode::Naive {
        ws
    } else {
        sweep_sorted(ws, p_coord, features)
    }
}

/// The nodes of `ws`, already in the order the sweep wants, that are visible
/// from `p`: the candidates beyond the same-point distance that pass the
/// visibility test, in candidate order, then the candidates within that
/// distance, which are visible whatever lies between.
pub open spec fn visible_vertices_spec(
    p: NodeData,
    ws: Seq<NodeData>,
    features: Features,
    optimization_mode: VisibilityOptimizationMode,
) -> Seq<NodeData> {
    let p_coord = features.coord_spec(p);
    let candidates = applicable_candidates(p, ws, features, optimization_mode);
    let far = candidates.filter(is_far(p_coord, features));
    let near = candidates.filter(is_near(p_coord, features));
    swept(
        p,
        far,
        0,
        initial_obstacle_edges(p_coord, far, features, optimization_mode),
        None,
        features,
        optimization_mode,
    ) + near
}

/// The wedge holds only entries of the sequence it was cut from.
pub proof fn lemma_wedge_within(base: Seq<NodeData>, right: NodeData, left: NodeData, x: NodeData)
    requires
        wedge(base, right, left).contains(x),
    ensures
        base.contains(x),
{
    let start = if base.contains(right) {
        first_node_position(base, right)
    } else {
        0
    };
    if base.contains(right) {
        let i = choose|i: int| 0 <= i < base.len() && base[i] == right;
        lemma_first_node_position(base, right);
    }
    let rotated = base.skip(start) + base.take(start);
    let cut = wedge(base, right, left);
    let k = choose|k: int| 0 <= k < cut.len() && cut[k] == x;
    if rotated.contains(left) {
        lemma_first_node_position(rotated, left);
    }
    assert(cut[k] == rotated[k]);
    if k < base.len() - start {
        assert(rotated[k] == base[start + k]);
    } else {
        assert(rotated[k] == base[k - (base.len() - start)]);
    }
}

/// An entry that occurs has a first position.
pub proof fn lemma_first_node_position(s: Seq<NodeData>, x: NodeData)
    requires
        s.contains(x),
    ensures
        is_first_node_position(s, x, first_node_position(s, x)),
{
    let i = choose|i: int| 0 <= i < s.len() && s[i] == x;
    lemma_first_position_below(s, x, i);
}

proof fn lemma_first_position_below(s: Seq<NodeData>, x: NodeData, i: int)
    requires
        0 <= i < s.len(),
        s[i] == x,
    ensures
        exists|k: int| is_first_node_position(s, x, k),
    decreases i,
{
    if exists|j: int| 0 <= j < i && s[j] == x {
        let j = choose|j: int| 0 <= j < i && s[j] == x;
        lemma_first_position_below(s, x, j);
    } else {
        assert(is_first_node_position(s, x, i));
    }
}

/// The sweep reports only candidates it was given.
pub proof fn lemma_swept_within(
    p: NodeData,
    far: Seq<NodeData>,
    i: int,
    edges: Seq<Line>,
    prev: Option<WPrevInfo>,
    features: Features,
    optimization_mode: VisibilityOptimizationMode,
    x: NodeData,
)
    requires
        swept(p, far, i, edges, prev, features, optimization_mode).contains(x),
    ensures
        far.contains(x),
    decreases far.len() - i,
{
    if 0 <= i < far.len() {
        let w = far[i];
        let visible = is_visible_from_spec(p, prev, w, edges, features, optimization_mode);
        let next_edges = if optimization_mode != VisibilityOptimizationMode::Naive
            && w is PartOfObstacle {
            updated_obstacle_edges(
                features.coord_spec(p),
                w->PartOfObstacle_0,
                features.obstacles,
                edges,
            )
        } else {
            edges
        };
        let rest = swept(
            p,
            far,
            i + 1,
            next_edges,
            Some(WPrevInfo { w_prev: w, w_prev_visible: visible }),
            features,
            optimization_mode,
        );
        let all = swept(p, far, i, edges, prev, features, optimization_mode);
        let k = choose|k: int| 0 <= k < all.len() && all[k] == x;
        if visible && k == 0 {
            assert(x == w);
        } else {
            if visible {
                assert(all[k] == rest[k - 1]);
            }
            assert(rest.contains(x));
            lemma_swept_within(
                p,
                far,
                i + 1,
                next_edges,
                Some(WPrevInfo { w_prev: w, w_prev_visible: visible }),
                features,
                optimization_mode,
                x,
            );
        }
    }
}

/// What is visible from `p` is a candidate: a node of `ws` other than `p`
/// that the ring rule admits.
pub proof fn lemma_visible_vertices_within(
    p: NodeData,
    ws: Seq<NodeData>,
    features: Features,
    optimization_mode: VisibilityOptimizationMode,
    x: NodeData,
)
    requires
        visible_vertices_spec(p, ws, features, optimization_mode).contains(x),
    ensures
        ws.contains(x),
        x != p,
        admissible_pair(p, x),
{
    broadcast use Seq::lemma_filter_contains_rev;

    let p_coord = features.coord_spec(p);
    let others = ws.filter(is_other_than(p));
    let in_front = if optimization_mode == VisibilityOptimizationMode::OptimizedSweep
        && p is PartOfObstacle {
        wedge(
            others,
            NodeData::PartOfObstacle(p->PartOfObstacle_0.right_in(features.obstacles)),
            NodeData::PartOfObstacle(p->PartOfObstacle_0.left_in(features.obstacles)),
        )
    } else {
        others
    };
    let candidates = in_front.filter(is_admissible_from(p));
    let far = candidates.filter(is_far(p_coord, features));
    let near = candidates.filter(is_near(p_coord, features));
    let first = swept(
        p,
        far,
        0,
        initial_obstacle_edges(p_coord, far, features, optimization_mode),
        None,
        features,
        optimization_mode,
    );
    let all = first + near;
    let k = choose|k: int| 0 <= k < all.len() && all[k] == x;
    if k < first.len() {
        assert(first[k] == x);
        lemma_swept_within(
            p,
            far,
            0,
            initial_obstacle_edges(p_coord, far, features, optimization_mode),
            None,
            features,
            optimization_mode,
            x,
        );
        assert(candidates.contains(x));
    } else {
        assert(near[k - first.len()] == x);
        assert(near.contains(x));
        assert(candidates.contains(x));
    }
    let c = choose|c: int| 0 <= c < candidates.len() && candidates[c] == x;
    in_front.lemma_filter_pred(is_admissible_from(p), c);
    assert(is_admissible_from(p)(candidates[c]));
    assert(in_front.contains(x));
    if optimization_mode == VisibilityOptimizationMode::OptimizedSweep && p is PartOfObstacle {
        lemma_wedge_within(
            others,
            NodeData::PartOfObstacle(p->PartOfObstacle_0.right_in(features.obstacles)),
            NodeData::PartOfObstacle(p->PartOfObstacle_0.left_in(features.obstacles)),
            x,
        );
    }
    assert(others.contains(x));
    let o = choose|o: int| 0 <= o < others.len() && others[o] == x;
    ws.lemma_filter_pred(is_other_than(p), o);
    assert(is_other_than(p)(others[o]));
}

/// Every entry of `s` names a node of `features`.
pub open spec fn all_valid(s: Seq<NodeData>, features: Features) -> bool {
    forall|i: int| 0 <= i < s.len() ==> features.node_valid(#[trigger] s[i])
}

fn nodes_other_than(ws: &Vec<NodeData>, p: &NodeData, features: &Features) -> (out: Vec<NodeData>)
    requires
        all_valid(ws@, *features),
    ensures
        out@ == ws@.filter(is_other_than(*p)),
        all_valid(out@, *features),
{
    let mut out: Vec<NodeData> = Vec::new();
    let mut i: usize = 0;
    proof {
        reveal(Seq::filter);
        assert(ws@.take(0) =~= Seq::<NodeData>::empty());
    }
    while i < ws.len()
        invariant
            i <= ws@.len(),
            all_valid(ws@, *features),
            all_valid(out@, *features),
            out@ == ws@.take(i as int).filter(is_other_than(*p)),
        decreases ws@.len() - i,
    {
        proof {
            reveal(Seq::filter);
            assert(ws@.take(i + 1).drop_last() =~= ws@.take(i as int));
        }
        if ws[i] != *p {
            out.push(ws[i]);
        }
        i += 1;
    }
    assert(ws@.take(i as int) =~= ws@);
    out
}

fn admissible_nodes(ws: &Vec<NodeData>, p: &NodeData, features: &Features) -> (out: Vec<NodeData>)
    requires
        all_valid(ws@, *features),
    ensures
        out@ == ws@.filter(is_admissible_from(*p)),
        all_valid(out@, *features),
{
    let mut out: Vec<NodeData> = Vec::new();
    let mut i: usize = 0;
    proof {
        reveal(Seq::filter);
        assert(ws@.take(0) =~= Seq::<NodeData>::empty());
    }
    while i < ws.len()
        invariant
            i <= ws@.len(),
            all_valid(ws@, *features),
            all_valid(out@, *features),
            out@ == ws@.take(i as int).filter(is_admissible_from(*p)),
        decreases ws@.len() - i,
    {
        proof {
            reveal(Seq::filter);
            assert(ws@.take(i + 1).drop_last() =~= ws@.take(i as int));
        }
        let w = ws[i];
        // If w is part of the same polygon that p is a part of, then w can
        // be visible iff it is on the same ring. This is true both for the
        // outer ring and inner rings.
        let admissible = match (p, w) {
            (NodeData::PartOfObstacle(p_mpi), NodeData::PartOfObstacle(w_mpi)) => {
                w_mpi.polygon_index != p_mpi.polygon_index || w_mpi.ring_index == p_mpi.ring_index
            },
            _ => true,
        };
        if admissible {
            out.push(w);
        }
        i += 1;
    }
    assert(ws@.take(i as int) =~= ws@);
    out
}

/// Splits `ws` into the nodes beyond the same-point distance of `p_coord`
/// and those within it.
fn split_by_distance(ws: &Vec<NodeData>, p_coord: Coordinate, features: &Features) -> (out: (
    Vec<NodeData>,
    Vec<NodeData>,
))
    requires
        all_valid(ws@, *features),
    ensures
        out.0@ == ws@.filter(is_far(p_coord, *features)),
        out.1@ == ws@.filter(is_near(p_coord, *features)),
        all_valid(out.0@, *features),
        all_valid(out.1@, *features),
{
    let mut far: Vec<NodeData> = Vec::new();
    let mut near: Vec<NodeData> = Vec::new();
    let mut i: usize = 0;
    proof {
        reveal(Seq::filter);
        assert(ws@.take(0) =~= Seq::<NodeData>::empty());
    }
    while i < ws.len()
        invariant
            i <= ws@.len(),
            all_valid(ws@, *features),
            all_valid(far@, *features),
            all_valid(near@, *features),
            far@ == ws@.take(i as int).filter(is_far(p_coord, *features)),
            near@ == ws@.take(i as int).filter(is_near(p_coord, *features)),
        decreases ws@.len() - i,
    {
        proof {
            reveal(Seq::filter);
            assert(ws@.take(i + 1).drop_last() =~= ws@.take(i as int));
        }
        let w = ws[i];
        let distance_squared = features.coord(&w).distance_squared(&p_coord);
        proof {
            crate::coord_ext::lemma_distance_squared_symmetric(features.coord_spec(w), p_coord);
        }
        if distance_squared <= (SAME_POINT_VISIBILITY_DISTANCE as u128) * (
        SAME_POINT_VISIBILITY_DISTANCE as u128) {
            near.push(w);
        } else {
            far.push(w);
        }
        i += 1;
    }
    assert(ws@.take(i as int) =~= ws@);
    (far, near)
}

fn find_node(s: &Vec<NodeData>, x: &NodeData) -> (r: Option<usize>)
    ensures
        match r {
            Some(i) => is_first_node_position(s@, *x, i as int),
            None => !s@.contains(*x),
        },
{
    let mut i: usize = 0;
    while i < s.len()
        invariant
            i <= s@.len(),
            forall|j: int| 0 <= j < i ==> s@[j] != *x,
        decreases s@.len() - i,
    {
        if s[i] == *x {
            return Some(i);
        }
        i += 1;
    }
    None
}

/// Only consider vertices "in front" of p, with "in front" meaning within
/// the range of angles between p's two neighbors. Vertices "behind" p would
/// always intersect the polygon p is part of.
fn nodes_in_wedge(base: &Vec<NodeData>, right: &NodeData, left: &NodeData, features: &Features) -> (out:
    Vec<NodeData>)
    requires
        all_valid(base@, *features),
    ensures
        out@ == wedge(base@, *right, *left),
        all_valid(out@, *features),
{
    let start: usize = match find_node(base, right) {
        Some(i) => {
            assert(base@.contains(*right));
            i
        },
        None => 0,
    };
    assert(start <= base@.len());
    let mut rotated: Vec<NodeData> = Vec::new();
    let mut i: usize = start;
    while i < base.len()
        invariant
            start <= i <= base@.len(),
            all_valid(base@, *features),
            all_valid(rotated@, *features),
            rotated@ == base@.subrange(start as int, i as int),
        decreases base@.len() - i,
    {
        rotated.push(base[i]);
        assert(rotated@ =~= base@.subrange(start as int, i + 1));
        i += 1;
    }
    let ghost tail = rotated@;
    assert(tail =~= base@.skip(start as int));
    let mut k: usize = 0;
    while k < start
        invariant
            k <= start,
            start <= base@.len(),
            all_valid(base@, *features),
            all_valid(rotated@, *features),
            rotated@ == tail + base@.take(k as int),
        decreases start - k,
    {
        rotated.push(base[k]);
        assert(rotated@ =~= tail + base@.take(k + 1));
        k += 1;
    }
    match find_node(&rotated, left) {
        None => rotated,
        Some(end) => {
            assert(rotated@.contains(*left));
            let mut out: Vec<NodeData> = Vec::new();
            let stop: usize = end + 1;
            let mut j: usize = 0;
            while j < stop
                invariant
                    j <= stop,
                    stop == end + 1,
                    stop <= rotated@.len(),
                    all_valid(rotated@, *features),
                    all_valid(out@, *features),
                    out@ == rotated@.take(j as int),
                decreases stop - j,
            {
                out.push(rotated[j]);
                assert(out@ =~= rotated@.take(j + 1));
                j += 1;
            }
            out
        },
    }
}

fn edges_crossed_by_ray(edges: &Vec<Line>, rho: Line) -> (out: Vec<Line>)
    ensures
        out@ == edges@.filter(crossed_by_ray(rho.start, rho.end)),
{
    let mut out: Vec<Line> = Vec::new();
    let mut i: usize = 0;
    proof {
        reveal(Seq::filter);
        assert(edges@.take(0) =~= Seq::<Line>::empty());
    }
    while i < edges.len()
        invariant
            i <= edges@.len(),
            out@ == edges@.take(i as int).filter(crossed_by_ray(rho.start, rho.end)),
        decreases edges@.len() - i,
    {
        proof {
            reveal(Seq::filter);
            assert(edges@.take(i + 1).drop_last() =~= edges@.take(i as int));
        }
        if get_proper_ray_line_intersection(rho, &edges[i]) {
            out.push(edges[i]);
        }
        i += 1;
    }
    assert(edges@.take(i as int) =~= edges@);
    out
}

/// `p` is the point (/vertex) in question
/// `ws` is the collection of other points to check visibility to
///
///  From "Computational Geometry: Algorithms and Applications" (de Berg et al.,
/// 2008)
pub fn visible_vertices(
    p: &NodeData,
    ws: &mut Vec<NodeData>,
    features: &Features,
    optimization_mode: VisibilityOptimizationMode,
) -> (visible: Vec<NodeData>)
    requires
        features.wf(),
        features.node_valid(*p),
        all_valid(old(ws)@, *features),
    ensures
        final(ws)@ == ordered_for_sweep(
            old(ws)@,
            features.coord_spec(*p),
            *features,
            optimization_mode,
        ),
        visible@ == visible_vertices_spec(*p, final(ws)@, *features, optimization_mode),
        all_valid(final(ws)@, *features),
        all_valid(visible@, *features),
{
    let p_coord = features.coord(p);

    // 1. Sort the obstacle vertices according to the counter-clockwise angle
    //    that the halfline from p to each vertex makes with the positive
    //    x-axis. In case of ties, vertices closer to p should come before
    //    vertices farther from p.
    match optimization_mode {
        VisibilityOptimizationMode::Naive => {},
        VisibilityOptimizationMode::Sweep | VisibilityOptimizationMode::OptimizedSweep => {
            // Sort in-place. This speeds up sorting since it's likely that a
            // neighboring vertex (that we'll process later if p is part of an
            // obstacle) has similar angle/distance order.
            sort_for_sweep(ws, p_coord, features);
        },
    }

    // p is trivially visible from p itself; do not consider this case
    let others = nodes_other_than(ws, p, features);
    let in_front = match p {
        NodeData::PartOfObstacle(p_mpi) => match optimization_mode {
            VisibilityOptimizationMode::Naive | VisibilityOptimizationMode::Sweep => others,
            VisibilityOptimizationMode::OptimizedSweep => {
                proof {
                    crate::mpi::lemma_neighbors_valid(*p_mpi, features.obstacles);
                }
                let p_neighbor_mpis = p_mpi.neighbors(&features.obstacles);
                nodes_in_wedge(
                    &others,
                    &NodeData::PartOfObstacle(p_neighbor_mpis.right),
                    &NodeData::PartOfObstacle(p_neighbor_mpis.left),
                    features,
                )
            },
        },
        // Water is not an obstacle (visibility lines can cross water), and a
        // query point has no neighbors to be in front of.
        NodeData::PartOfWater(_) | NodeData::Arbitrary(_) => others,
    };
    let ws_applicable = admissible_nodes(&in_front, p, features);

    // Mark any point within a margin as visible regardless of obstacle
    // intersections. This also avoids problems with for example water
    // points overlapping with obstacle point and leading to undefined
    // angles.
    let (ws_far, ws_same_location) = split_by_distance(&ws_applicable, p_coord, features);

    let mut possible_obstacle_edges = match optimization_mode {
        VisibilityOptimizationMode::Naive => features.obstacles.lines(),
        VisibilityOptimizationMode::Sweep | VisibilityOptimizationMode::OptimizedSweep => {
            // 2. Let rho be the half-line starting at p towards the first
            //    candidate. Find the obstacle edges that are properly
            //    intersected by rho.
            if ws_far.len() == 0 {
                Vec::new()
            } else {
                let most_clockwise_w_coord = features.coord(&ws_far[0]);
                let rho = Line::new(p_coord, most_clockwise_w_coord);
                edges_crossed_by_ray(&features.obstacles.lines(), rho)
            }
        },
    };

    // holds w_prev as well as whether w_prev was visible
    let mut w_prev_info: Option<WPrevInfo> = None;
    let mut ws_visible: Vec<NodeData> = Vec::new();
    let ghost initial_edges = possible_obstacle_edges@;

    // 4. for w in ws_far
    let mut i: usize = 0;
    while i < ws_far.len()
        invariant
            i <= ws_far@.len(),
            features.wf(),
            features.node_valid(*p),
            p_coord == features.coord_spec(*p),
            all_valid(ws_far@, *features),
            all_valid(ws_visible@, *features),
            w_prev_info is Some ==> features.node_valid(w_prev_info->0.w_prev),
            ws_visible@ + swept(
                *p,
                ws_far@,
                i as int,
                possible_obstacle_edges@,
                w_prev_info,
                *features,
                optimization_mode,
            ) == swept(*p, ws_far@, 0, initial_edges, None, *features, optimization_mode),
        decreases ws_far@.len() - i,
    {
        let w = ws_far[i];
        let ghost before = ws_visible@;
        let ghost edges_before = possible_obstacle_edges@;
        let ghost prev_before = w_prev_info;
        // 5. if VISIBLE(w) then add w to W
        let is_visible = is_visible_from(
            p,
            w_prev_info.as_ref(),
            &w,
            &possible_obstacle_edges,
            features,
            optimization_mode,
        );
        w_prev_info = Some(WPrevInfo::new(w, is_visible));

        // 6. and 7.
        if optimization_mode != VisibilityOptimizationMode::Naive {
            if let NodeData::PartOfObstacle(w_mpi) = w {
                update_possible_obstacle_edges(
                    p_coord,
                    &w_mpi,
                    &features.obstacles,
                    &mut possible_obstacle_edges,
                );
            }
        }
        if is_visible {
            ws_visible.push(w);
        }
        proof {
            let rest = swept(
                *p,
                ws_far@,
                i + 1,
                possible_obstacle_edges@,
                w_prev_info,
                *features,
                optimization_mode,
            );
            if is_visible {
                assert(ws_visible@ + rest =~= before + (seq![w] + rest));
            }
        }
        i += 1;
    }
    let mut k: usize = 0;
    let ghost swept_part = ws_visible@;
    while k < ws_same_location.len()
        invariant
            k <= ws_same_location@.len(),
            all_valid(ws_same_location@, *features),
            all_valid(ws_visible@, *features),
            ws_visible@ == swept_part + ws_same_location@.take(k as int),
        decreases ws_same_location@.len() - k,
    {
        ws_visible.push(ws_same_location[k]);
        assert(ws_visible@ =~= swept_part + ws_same_location@.take(k + 1));
        k += 1;
    }
    assert(ws_same_location@.take(k as int) =~= ws_same_location@);
    return ws_visible;
}

/// `w` can be seen from `p` when every obstacle edge is tested: the two are
/// different nodes that the ring rule admits, and they are within the
/// same-point distance of each other or no obstacle blocks the line between
/// them.
pub open spec fn sees_naively(features: Features, p: NodeData, w: NodeData) -> bool {
    &&& w != p
    &&& admissible_pair(p, w)
    &&& (is_same_location(features.coord_spec(p), features.coord_spec(w)) || is_visible_from_spec(
        p,
        None,
        w,
        features.obstacles.edges(),
        features,
        VisibilityOptimizationMode::Naive,
    ))
}

/// Without the sweep, a candidate is reported when it passes the visibility
/// test against all obstacle edges, whatever was handled before it.
pub proof fn lemma_swept_naively(
    p: NodeData,
    far: Seq<NodeData>,
    i: int,
    prev: Option<WPrevInfo>,
    features: Features,
    w: NodeData,
)
    requires
        0 <= i <= far.len(),
    ensures
        swept(
            p,
            far,
            i,
            features.obstacles.edges(),
            prev,
            features,
            VisibilityOptimizationMode::Naive,
        ).contains(w) <==> (exists|j: int|
            i <= j < far.len() && far[j] == w) && is_visible_from_spec(
            p,
            None,
            w,
            features.obstacles.edges(),
            features,
            VisibilityOptimizationMode::Naive,
        ),
    decreases far.len() - i,
{
    let mode = VisibilityOptimizationMode::Naive;
    let edges = features.obstacles.edges();
    let all = swept(p, far, i, edges, prev, features, mode);
    if i < far.len() {
        let x = far[i];
        let visible = is_visible_from_spec(p, prev, x, edges, features, mode);
        assert(visible == is_visible_from_spec(p, None, x, edges, features, mode));
        let next = Some(WPrevInfo { w_prev: x, w_prev_visible: visible });
        let rest = swept(p, far, i + 1, edges, next, features, mode);
        lemma_swept_naively(p, far, i + 1, next, features, w);
        if all.contains(w) {
            let k = choose|k: int| 0 <= k < all.len() && all[k] == w;
            if visible && k == 0 {
                assert(far[i] == w);
            } else {
                if visible {
                    assert(all[k] == rest[k - 1]);
                }
                assert(rest.contains(w));
            }
        }
        if (exists|j: int| i <= j < far.len() && far[j] == w) && is_visible_from_spec(
            p,
            None,
            w,
            edges,
            features,
            mode,
        ) {
            let j = choose|j: int| i <= j < far.len() && far[j] == w;
            if j == i {
                assert(all[0] == w);
            } else {
                assert(rest.contains(w));
                let k = choose|k: int| 0 <= k < rest.len() && rest[k] == w;
                if visible {
                    assert(all[k + 1] == w);
                } else {
                    assert(all[k] == w);
                }
            }
        }
    }
}

/// Without the sweep, what is visible from `p` among `ws` are the nodes of
/// `ws` that `p` sees naively.
pub proof fn lemma_visible_vertices_naive(p: NodeData, ws: Seq<NodeData>, features: Features, w: NodeData)
    ensures
        visible_vertices_spec(p, ws, features, VisibilityOptimizationMode::Naive).contains(w) <==> ws.contains(
            w,
        ) && sees_naively(features, p, w),
{
    broadcast use Seq::lemma_filter_contains_rev;

    let mode = VisibilityOptimizationMode::Naive;
    let p_coord = features.coord_spec(p);
    let others = ws.filter(is_other_than(p));
    let candidates = others.filter(is_admissible_from(p));
    let far = candidates.filter(is_far(p_coord, features));
    let near = candidates.filter(is_near(p_coord, features));
    let edges = features.obstacles.edges();
    let first = swept(p, far, 0, edges, None, features, mode);
    let all = first + near;
    lemma_swept_naively(p, far, 0, None, features, w);
    lemma_filter_membership(ws, is_other_than(p), w);
    lemma_filter_membership(others, is_admissible_from(p), w);
    lemma_filter_membership(candidates, is_far(p_coord, features), w);
    lemma_filter_membership(candidates, is_near(p_coord, features), w);
    if all.contains(w) {
        let k = choose|k: int| 0 <= k < all.len() && all[k] == w;
        if k < first.len() {
            assert(first[k] == w);
            assert(first.contains(w));
            let j = choose|j: int| 0 <= j < far.len() && far[j] == w;
            assert(far.contains(w));
        } else {
            assert(near[k - first.len()] == w);
            assert(near.contains(w));
        }
    }
    if ws.contains(w) && sees_naively(features, p, w) {
        assert(candidates.contains(w));
        if is_same_location(p_coord, features.coord_spec(w)) {
            assert(near.contains(w));
            let k = choose|k: int| 0 <= k < near.len() && near[k] == w;
            assert(all[first.len() + k] == w);
        } else {
            assert(far.contains(w));
            let j = choose|j: int| 0 <= j < far.len() && far[j] == w;
            assert(first.contains(w));
            let k = choose|k: int| 0 <= k < first.len() && first[k] == w;
            assert(all[k] == w);
        }
    }
}

/// A filtered sequence holds exactly the entries that pass the filter.
pub proof fn lemma_filter_membership(s: Seq<NodeData>, pred: spec_fn(NodeData) -> bool, x: NodeData)
    ensures
        s.filter(pred).contains(x) <==> s.contains(x) && pred(x),
{
    broadcast use Seq::lemma_filter_contains_rev;

    if s.filter(pred).contains(x) {
        let i = choose|i: int| 0 <= i < s.filter(pred).len() && s.filter(pred)[i] == x;
        s.lemma_filter_pred(pred, i);
    }
    if s.contains(x) && pred(x) {
        let i = choose|i: int| 0 <= i < s.len() && s[i] == x;
        s.lemma_filter_contains(pred, i);
    }
}

/// Seeing naively is mutual: `w` is seen from `p` exactly if `p` is seen from
/// `w`.
pub proof fn lemma_sees_naively_symmetric(features: Features, p: NodeData, w: NodeData)
    ensures
        sees_naively(features, p, w) == sees_naively(features, w, p),
{
    let pc = features.coord_spec(p);
    let wc = features.coord_spec(w);
    let edges = features.obstacles.edges();
    crate::coord_ext::lemma_distance_squared_symmetric(pc, wc);
    let forth = Line { start: pc, end: wc };
    let back = Line { start: wc, end: pc };
    assert(crossed_properly(edges, forth, wc) == crossed_properly(edges, back, pc)) by {
        if crossed_properly(edges, forth, wc) {
            let i = choose|i: int|
                0 <= i < edges.len() && !incident_at(#[trigger] edges[i], wc)
                    && lines_intersect_properly(edges[i], forth);
            crate::intersection::lemma_proper_intersection_symmetric(edges[i], forth);
            if incident_at(edges[i], pc) {
                crate::intersection::lemma_no_proper_intersection_at_shared_endpoint(
                    edges[i],
                    wc,
                    pc,
                );
            }
        }
        if crossed_properly(edges, back, pc) {
            let i = choose|i: int|
                0 <= i < edges.len() && !incident_at(#[trigger] edges[i], pc)
                    && lines_intersect_properly(edges[i], back);
            crate::intersection::lemma_proper_intersection_symmetric(edges[i], back);
            if incident_at(edges[i], wc) {
                crate::intersection::lemma_no_proper_intersection_at_shared_endpoint(
                    edges[i],
                    pc,
                    wc,
                );
            }
        }
    }
}

/// Visibility without the sweep is symmetric: among candidate lists that
/// hold the one and the other, `b` is visible from `a` exactly if `a` is
/// visible from `b`.
pub proof fn lemma_visibility_symmetric(
    features: Features,
    a: NodeData,
    b: NodeData,
    ws_a: Seq<NodeData>,
    ws_b: Seq<NodeData>,
)
    requires
        ws_a.contains(b),
        ws_b.contains(a),
    ensures
        visible_vertices_spec(a, ws_a, features, VisibilityOptimizationMode::Naive).contains(b)
            == visible_vertices_spec(b, ws_b, features, VisibilityOptimizationMode::Naive).contains(
            a,
        ),
{
    lemma_visible_vertices_naive(a, ws_a, features, b);
    lemma_visible_vertices_naive(b, ws_b, features, a);
    lemma_sees_naively_symmetric(features, a, b);
}

/// A candidate within the same-point distance of `p` is visible from `p`,
/// unless `p` is an obstacle vertex under the optimized sweep, which may
/// cut the candidate off with the wedge.
pub proof fn lemma_same_location_is_visible(
    p: NodeData,
    ws: Seq<NodeData>,
    features: Features,
    optimization_mode: VisibilityOptimizationMode,
    w: NodeData,
)
    requires
        ws.contains(w),
        w != p,
        admissible_pair(p, w),
        is_same_location(features.coord_spec(p), features.coord_spec(w)),
        !(optimization_mode == VisibilityOptimizationMode::OptimizedSweep && p is PartOfObstacle),
    ensures
        visible_vertices_spec(p, ws, features, optimization_mode).contains(w),
{
    let p_coord = features.coord_spec(p);
    let others = ws.filter(is_other_than(p));
    let candidates = others.filter(is_admissible_from(p));
    let far = candidates.filter(is_far(p_coord, features));
    let near = candidates.filter(is_near(p_coord, features));
    let first = swept(
        p,
        far,
        0,
        initial_obstacle_edges(p_coord, far, features, optimization_mode),
        None,
        features,
        optimization_mode,
    );
    lemma_filter_membership(ws, is_other_than(p), w);
    lemma_filter_membership(others, is_admissible_from(p), w);
    lemma_filter_membership(candidates, is_near(p_coord, features), w);
    let k = choose|k: int| 0 <= k < near.len() && near[k] == w;
    assert((first + near)[first.len() + k] == w);
}

} // verus!
