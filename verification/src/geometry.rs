//! Planar geometry on whole working units: coordinates, segments, rings,
//! polygons, and the exact orientation predicate everything else rests on.

use vstd::prelude::*;

verus! {

/// Working units per metre. Coordinates are whole centimetres of the planar
/// metric reference system.
pub const UNITS_PER_METRE: u64 = 100;

/// A point of the plane in working units.
#[derive(Clone, Copy, Debug, PartialEq, Eq, Structural, Hash, PartialOrd, Ord)]
pub struct Coordinate {
    pub x: i32,
    pub y: i32,
}

/// A directed segment between two coordinates.
#[derive(Clone, Copy, Debug, PartialEq, Eq, Structural, Hash)]
pub struct Line {
    pub start: Coordinate,
    pub end: Coordinate,
}

/// The turn made when walking from `p` through `q` to `r`.
#[derive(Clone, Copy, Debug, PartialEq, Eq, Structural)]
pub enum Orientation {
    CounterClockwise,
    Clockwise,
    Collinear,
}

/// One exterior ring and any number of interior rings (holes). Rings are
/// stored closed: the last coordinate repeats the first.
#[derive(Clone, Debug)]
pub struct Polygon {
    pub exterior: Vec<Coordinate>,
    pub interiors: Vec<Vec<Coordinate>>,
}

/// An ordered sequence of polygons.
#[derive(Clone, Debug)]
pub struct MultiPolygon(pub Vec<Polygon>);

/// Twice the signed area of the triangle `p`, `q`, `r`: positive when the
/// three points turn counter-clockwise.
pub open spec fn cross(p: Coordinate, q: Coordinate, r: Coordinate) -> int {
    (q.x - p.x) * (r.y - p.y) - (q.y - p.y) * (r.x - p.x)
}

/// The orientation of `p`, `q`, `r` as the sign of [`cross`].
pub open spec fn orientation(p: Coordinate, q: Coordinate, r: Coordinate) -> Orientation {
    if cross(p, q, r) > 0 {
        Orientation::CounterClockwise
    } else if cross(p, q, r) < 0 {
        Orientation::Clockwise
    } else {
        Orientation::Collinear
    }
}

/// `c` lies in the axis-parallel rectangle spanned by `a` and `b`.
pub open spec fn in_bounding_box(c: Coordinate, a: Coordinate, b: Coordinate) -> bool {
    &&& (a.x <= c.x <= b.x || b.x <= c.x <= a.x)
    &&& (a.y <= c.y <= b.y || b.y <= c.y <= a.y)
}

/// `c` lies on the closed segment from `a` to `b`.
pub open spec fn on_segment(c: Coordinate, a: Coordinate, b: Coordinate) -> bool {
    cross(a, b, c) == 0 && in_bounding_box(c, a, b)
}

/// `c` lies on the segment from `a` to `b` but is neither endpoint; a
/// degenerate segment contains only its single point.
pub open spec fn in_segment_interior(c: Coordinate, a: Coordinate, b: Coordinate) -> bool {
    if a == b {
        c == a
    } else {
        c != a && c != b && on_segment(c, a, b)
    }
}

/// Product of two bounded integers is bounded by the product of the bounds.
pub proof fn lemma_mul_bound(a: int, b: int, m: int)
    requires
        -m <= a <= m,
        -m <= b <= m,
    ensures
        -(m * m) <= a * b <= m * m,
{
    assert(-(m * m) <= a * b <= m * m) by (nonlinear_arith)
        requires
            -m <= a <= m,
            -m <= b <= m,
    ;
}

/// Exact value of [`cross`].
pub fn cross_product(p: Coordinate, q: Coordinate, r: Coordinate) -> (c: i128)
    ensures
        c == cross(p, q, r),
{
    let ax: i128 = q.x as i128 - p.x as i128;
    let ay: i128 = q.y as i128 - p.y as i128;
    let bx: i128 = r.x as i128 - p.x as i128;
    let by: i128 = r.y as i128 - p.y as i128;
    proof {
        lemma_mul_bound(ax as int, by as int, 0x1_0000_0000);
        lemma_mul_bound(ay as int, bx as int, 0x1_0000_0000);
    }
    ax * by - ay * bx
}

/// Exact orientation of three points.
pub fn orient2d(p: Coordinate, q: Coordinate, r: Coordinate) -> (o: Orientation)
    ensures
        o == orientation(p, q, r),
{
    let c = cross_product(p, q, r);
    if c > 0 {
        Orientation::CounterClockwise
    } else if c < 0 {
        Orientation::Clockwise
    } else {
        Orientation::Collinear
    }
}

/// Whether `c` lies in the bounding box of `a` and `b`.
pub fn point_in_bounding_box(c: Coordinate, a: Coordinate, b: Coordinate) -> (r: bool)
    ensures
        r == in_bounding_box(c, a, b),
{
    ((a.x <= c.x && c.x <= b.x) || (b.x <= c.x && c.x <= a.x)) && ((a.y <= c.y && c.y <= b.y) || (
    b.y <= c.y && c.y <= a.y))
}

impl Line {
    /// The segment from `start` to `end`.
    pub fn new(start: Coordinate, end: Coordinate) -> (line: Line)
        ensures
            line.start == start,
            line.end == end,
    {
        Line { start, end }
    }

    /// Whether `c` lies on this closed segment.
    pub fn intersects_coordinate(&self, c: Coordinate) -> (r: bool)
        ensures
            r == on_segment(c, self.start, self.end),
    {
        cross_product(self.start, self.end, c) == 0 && point_in_bounding_box(c, self.start, self.end)
    }

    /// Whether `c` lies in the interior of this segment.
    pub fn contains(&self, c: Coordinate) -> (r: bool)
        ensures
            r == in_segment_interior(c, self.start, self.end),
    {
        if self.start == self.end {
            c == self.start
        } else {
            c != self.start && c != self.end && self.intersects_coordinate(c)
        }
    }
}

/// A ring is closed, has at least three distinct vertex positions, and no
/// edge of zero length.
pub open spec fn ring_wf(ring: Seq<Coordinate>) -> bool {
    &&& ring.len() >= 4
    &&& ring[0] == ring[ring.len() - 1]
    &&& forall|i: int| 0 <= i < ring.len() - 1 ==> ring[i] != #[trigger] ring[i + 1]
}

/// The `i`-th edge of a closed ring.
pub open spec fn ring_edge(ring: Seq<Coordinate>, i: int) -> Line {
    Line { start: ring[i], end: ring[i + 1] }
}

/// The edges of a closed ring, in ring order.
pub open spec fn ring_edges(ring: Seq<Coordinate>) -> Seq<Line> {
    Seq::new((ring.len() - 1) as nat, |i: int| ring_edge(ring, i))
}

impl Polygon {
    /// Number of rings: the exterior plus the holes.
    pub open spec fn ring_count(self) -> nat {
        self.interiors@.len() + 1
    }

    /// Ring `r`: the exterior for `r == 0`, hole `r - 1` otherwise.
    pub open spec fn ring(self, r: int) -> Seq<Coordinate> {
        if r == 0 {
            self.exterior@
        } else {
            self.interiors@[r - 1]@
        }
    }

    /// Every ring is well formed.
    pub open spec fn wf(self) -> bool {
        forall|r: int| 0 <= r < self.ring_count() ==> ring_wf(#[trigger] self.ring(r))
    }

    /// All ring edges: those of the exterior, then of each hole in turn.
    pub open spec fn edges(self) -> Seq<Line> {
        Seq::new(self.ring_count(), |r: int| ring_edges(self.ring(r))).flatten()
    }

    /// The polygon of the given rings.
    pub fn new(exterior: Vec<Coordinate>, interiors: Vec<Vec<Coordinate>>) -> (polygon: Polygon)
        ensures
            polygon.exterior == exterior,
            polygon.interiors == interiors,
    {
        Polygon { exterior, interiors }
    }

    /// Borrow ring `r`.
    pub fn ring_at(&self, r: usize) -> (ring: &Vec<Coordinate>)
        requires
            r < self.ring_count(),
        ensures
            ring@ == self.ring(r as int),
    {
        if r == 0 {
            &self.exterior
        } else {
            &self.interiors[r - 1]
        }
    }
}

impl MultiPolygon {
    /// The number of polygons.
    pub open spec fn len(self) -> nat {
        self.0@.len()
    }

    /// Polygon `p`.
    pub open spec fn polygon(self, p: int) -> Polygon {
        self.0@[p]
    }

    /// Ring `r` of polygon `p`.
    pub open spec fn ring(self, p: int, r: int) -> Seq<Coordinate> {
        self.polygon(p).ring(r)
    }

    /// Every ring of every polygon is well formed.
    pub open spec fn wf(self) -> bool {
        forall|p: int| 0 <= p < self.len() ==> (#[trigger] self.polygon(p)).wf()
    }

    /// All ring edges, polygon by polygon.
    pub open spec fn edges(self) -> Seq<Line> {
        Seq::new(self.len(), |p: int| self.polygon(p).edges()).flatten()
    }

    /// The multi-polygon of the given polygons.
    pub fn new(polygons: Vec<Polygon>) -> (mp: MultiPolygon)
        ensures
            mp.0 == polygons,
    {
        MultiPolygon(polygons)
    }

    /// Borrow ring `r` of polygon `p`.
    pub fn ring_at(&self, p: usize, r: usize) -> (ring: &Vec<Coordinate>)
        requires
            p < self.len(),
            r < self.polygon(p as int).ring_count(),
        ensures
            ring@ == self.ring(p as int, r as int),
    {
        self.0[p].ring_at(r)
    }
}

/// Extending a tabulated sequence by one entry appends that entry's items to
/// the flattening.
pub proof fn lemma_flatten_step<A>(n: nat, f: spec_fn(int) -> Seq<A>)
    ensures
        Seq::new(n + 1, f).flatten() == Seq::new(n, f).flatten() + f(n as int),
{
    assert(Seq::new(n + 1, f) =~= Seq::new(n, f).push(f(n as int)));
    Seq::new(n, f).lemma_flatten_push(f(n as int));
}

/// The edges of one ring, collected in order.
fn push_ring_edges(ring: &Vec<Coordinate>, out: &mut Vec<Line>)
    requires
        ring@.len() >= 1,
    ensures
        final(out)@ == old(out)@ + ring_edges(ring@),
{
    let n: usize = ring.len() - 1;
    let mut i: usize = 0;
    while i < n
        invariant
            n == ring@.len() - 1,
            i <= n,
            out@ == old(out)@ + Seq::new(i as nat, |k: int| ring_edge(ring@, k)),
        decreases n - i,
    {
        out.push(Line { start: ring[i], end: ring[i + 1] });
        proof {
            assert(Seq::new((i + 1) as nat, |k: int| ring_edge(ring@, k)) =~= Seq::new(
                i as nat,
                |k: int| ring_edge(ring@, k),
            ).push(ring_edge(ring@, i as int)));
        }
        i += 1;
    }
    assert(out@ =~= old(out)@ + ring_edges(ring@));
}

impl MultiPolygon {
    /// Every ring edge of the multi-polygon: polygon by polygon, the exterior
    /// ring first, each edge directed along its ring.
    pub fn lines(&self) -> (out: Vec<Line>)
        requires
            self.wf(),
        ensures
            out@ == self.edges(),
    {
        let mut out: Vec<Line> = Vec::new();
        let mut p: usize = 0;
        assert(Seq::new(0, |k: int| self.polygon(k).edges()).flatten() =~= Seq::<Line>::empty());
        while p < self.0.len()
            invariant
                self.wf(),
                p <= self.len(),
                out@ == Seq::new(p as nat, |k: int| self.polygon(k).edges()).flatten(),
            decreases self.len() - p,
        {
            let polygon = &self.0[p];
            let ghost before = out@;
            let ghost rings = |r: int| ring_edges(polygon.ring(r));
            assert(self.polygon(p as int).wf());
            assert(ring_wf(polygon.ring(0)));
            push_ring_edges(&polygon.exterior, &mut out);
            let mut r: usize = 0;
            proof {
                lemma_flatten_step(0, rings);
                assert(Seq::new(0, rings).flatten() =~= Seq::<Line>::empty());
                assert(out@ =~= before + Seq::new(1, rings).flatten());
            }
            while r < polygon.interiors.len()
                invariant
                    polygon.wf(),
                    r <= polygon.interiors@.len(),
                    rings == (|r: int| ring_edges(polygon.ring(r))),
                    out@ == before + Seq::new((r + 1) as nat, rings).flatten(),
                decreases polygon.interiors@.len() - r,
            {
                assert(ring_wf(polygon.ring(r + 1)));
                push_ring_edges(&polygon.interiors[r], &mut out);
                proof {
                    lemma_flatten_step((r + 1) as nat, rings);
                    assert(out@ =~= before + Seq::new((r + 2) as nat, rings).flatten());
                }
                r += 1;
            }
            proof {
                assert(Seq::new(polygon.ring_count(), rings) =~= Seq::new(
                    (r + 1) as nat,
                    rings,
                ));
                lemma_flatten_step(p as nat, |k: int| self.polygon(k).edges());
            }
            p += 1;
        }
        out
    }
}

/// `ring` without the points that repeat the point before them.
pub open spec fn without_repeats(ring: Seq<Coordinate>) -> Seq<Coordinate>
    decreases ring.len(),
{
    if ring.len() == 0 {
        ring
    } else {
        let head = without_repeats(ring.drop_last());
        if head.len() > 0 && head.last() == ring.last() {
            head
        } else {
            head.push(ring.last())
        }
    }
}

/// A copy of `ring` in which a point that repeats the point before it is
/// left out, so that no edge is without length. Where points fall together
/// when coordinates are rounded to whole units, this mends the ring.
pub fn drop_repeated_points(ring: &Vec<Coordinate>) -> (out: Vec<Coordinate>)
    ensures
        out@ == without_repeats(ring@),
        forall|i: int| 0 <= i < out@.len() - 1 ==> out@[i] != #[trigger] out@[i + 1],
        ring@.len() > 0 ==> out@.len() > 0 && out@[0] == ring@[0] && out@.last() == ring@.last(),
{
    let mut out: Vec<Coordinate> = Vec::new();
    let mut i: usize = 0;
    assert(ring@.take(0) =~= Seq::<Coordinate>::empty());
    while i < ring.len()
        invariant
            i <= ring@.len(),
            out@ == without_repeats(ring@.take(i as int)),
            forall|k: int| 0 <= k < out@.len() - 1 ==> out@[k] != #[trigger] out@[k + 1],
            i > 0 ==> out@.len() > 0 && out@[0] == ring@[0] && out@.last() == ring@[i - 1],
        decreases ring@.len() - i,
    {
        let point = ring[i];
        assert(ring@.take(i + 1).drop_last() =~= ring@.take(i as int));
        let n = out.len();
        if n == 0 || !(out[n - 1].x == point.x && out[n - 1].y == point.y) {
            out.push(point);
        }
        i += 1;
    }
    assert(ring@.take(i as int) =~= ring@);
    out
}

/// The bound that both coordinates of a point keep below, in absolute
/// value, for `geo` to decide containment without overflow.
pub const CONTAINS_COORDINATE_LIMIT: i32 = 0x4000_0000;

/// Both coordinates of `c` keep within [`CONTAINS_COORDINATE_LIMIT`].
pub open spec fn in_contains_range(c: Coordinate) -> bool {
    &&& -CONTAINS_COORDINATE_LIMIT < c.x < CONTAINS_COORDINATE_LIMIT
    &&& -CONTAINS_COORDINATE_LIMIT < c.y < CONTAINS_COORDINATE_LIMIT
}

/// Whether `geo` finds `c` contained in the multi-polygon whose polygons
/// have the rings `polygons`, for each polygon its exterior ring first: it
/// does where `c` lies inside the exterior ring of one of the polygons and
/// outside its holes, on no boundary.
pub uninterp spec fn contained_in(polygons: Seq<Seq<Seq<Coordinate>>>, c: Coordinate) -> bool;

impl MultiPolygon {
    /// The rings of the polygons, for each polygon its exterior ring first.
    pub open spec fn rings(self) -> Seq<Seq<Seq<Coordinate>>> {
        Seq::new(
            self.len(),
            |p: int| Seq::new(self.polygon(p).ring_count(), |r: int| self.ring(p, r)),
        )
    }

    /// Every point of every ring keeps within [`CONTAINS_COORDINATE_LIMIT`].
    pub open spec fn in_contains_range(self) -> bool {
        forall|p: int, r: int, i: int|
            0 <= p < self.len() && 0 <= r < self.polygon(p).ring_count() && 0 <= i < self.ring(
                p,
                r,
            ).len() ==> in_contains_range(#[trigger] self.ring(p, r)[i])
    }

    /// Whether `c` lies strictly inside one of the polygons. A point on a
    /// boundary is not contained.
    pub fn contains(&self, c: Coordinate) -> (r: bool)
        requires
            self.in_contains_range(),
            in_contains_range(c),
        ensures
            r == contained_in(self.rings(), c),
            self.len() == 0 ==> !r,
    {
        multi_polygon_contains(self, &c)
    }
}

/// `geo`'s `Contains::contains` of a multi-polygon for a coordinate, both
/// taken with 64-bit integers. The call decides by its arguments alone, and
/// finds nothing contained in no polygons. The one computation in it that can
/// overflow is the orientation test, a difference of two products of
/// coordinate differences, which the bound on the coordinates keeps within 64
/// bits.
#[verifier::external_body]
fn multi_polygon_contains(multi_polygon: &MultiPolygon, c: &Coordinate) -> (inside: bool)
    requires
        multi_polygon.in_contains_range(),
        in_contains_range(*c),
    ensures
        inside == contained_in(multi_polygon.rings(), *c),
        multi_polygon.len() == 0 ==> !inside,
{
    let ring = |r: &Vec<Coordinate>|
        geo::LineString::<i64>(
            r.iter().map(|c| geo::Coord { x: i64::from(c.x), y: i64::from(c.y) }).collect(),
        );
    let polygons = multi_polygon.0.iter().map(
        |p| geo::Polygon::new(ring(&p.exterior), p.interiors.iter().map(ring).collect()),
    ).collect();
    geo::algorithm::contains::Contains::contains(
        &geo::MultiPolygon::<i64>(polygons),
        &geo::Coord { x: i64::from(c.x), y: i64::from(c.y) },
    )
}

} // verus!
