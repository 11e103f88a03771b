//! Winding of polygons
//! 'Winding' refers to the order that coordinates of a polygon's rings are
//! stored.

use crate::geometry::{Coordinate, MultiPolygon, Polygon};
use vstd::prelude::*;

verus! {

/// The sense in which a closed ring runs.
#[derive(Clone, Copy, Debug, PartialEq, Eq, Structural)]
pub enum WindingOrder {
    Clockwise,
    CounterClockwise,
}

/// The winding order that `geo` finds for a ring, or `None` where it finds
/// none: for a ring that is not closed or has too few distinct points, or
/// whose extreme corner is flat.
pub uninterp spec fn winding_order_of(ring: Seq<Coordinate>) -> Option<WindingOrder>;

/// The bound that both coordinates of a point keep below, in absolute
/// value, for `geo` to find the winding order of its ring without overflow.
pub const WINDING_COORDINATE_LIMIT: i32 = 0x4000_0000;

/// Every point of the ring keeps within [`WINDING_COORDINATE_LIMIT`].
pub open spec fn ring_in_winding_range(ring: Seq<Coordinate>) -> bool {
    forall|i: int|
        0 <= i < ring.len() ==> {
            &&& -WINDING_COORDINATE_LIMIT < (#[trigger] ring[i]).x < WINDING_COORDINATE_LIMIT
            &&& -WINDING_COORDINATE_LIMIT < ring[i].y < WINDING_COORDINATE_LIMIT
        }
}

/// `geo`'s `Winding::winding_order` of the ring, taken as a line string of
/// 64-bit integers. The call decides by its argument alone. The one
/// computation in it that can overflow is the orientation test, a difference
/// of two products of coordinate differences, which the bound on the
/// coordinates keeps within 64 bits.
#[verifier::external_body]
fn winding_order(ring: &Vec<Coordinate>) -> (order: Option<WindingOrder>)
    requires
        ring_in_winding_range(ring@),
    ensures
        order == winding_order_of(ring@),
{
    let line_string = geo::LineString::<i64>(
        ring.iter().map(|c| geo::Coord { x: i64::from(c.x), y: i64::from(c.y) }).collect(),
    );
    match geo::algorithm::winding_order::Winding::winding_order(&line_string) {
        Some(geo::algorithm::winding_order::WindingOrder::Clockwise) => Some(WindingOrder::Clockwise),
        Some(geo::algorithm::winding_order::WindingOrder::CounterClockwise) => Some(
            WindingOrder::CounterClockwise,
        ),
        None => None,
    }
}

/// The winding order a ring is to have: counter-clockwise for an exterior
/// ring, clockwise for an interior one.
pub open spec fn wanted_winding(exterior: bool) -> WindingOrder {
    if exterior {
        WindingOrder::CounterClockwise
    } else {
        WindingOrder::Clockwise
    }
}

/// `ring` as it is to be stored when its winding order was found to be
/// `found`: turned round where that is the opposite of the wanted order, as
/// it is otherwise.
pub open spec fn with_winding(ring: Seq<Coordinate>, found: Option<WindingOrder>, exterior: bool) -> Seq<
    Coordinate,
> {
    if found is Some && found->0 != wanted_winding(exterior) {
        ring.reverse()
    } else {
        ring
    }
}

/// A copy of `ring` in the wanted winding order, given the order that was
/// found for it.
pub fn ring_with_winding(ring: &Vec<Coordinate>, found: Option<WindingOrder>, exterior: bool) -> (out:
    Vec<Coordinate>)
    ensures
        out@ == with_winding(ring@, found, exterior),
{
    let turn = match found {
        Some(WindingOrder::Clockwise) => exterior,
        Some(WindingOrder::CounterClockwise) => !exterior,
        None => false,
    };
    let n = ring.len();
    let mut out: Vec<Coordinate> = Vec::new();
    let mut i: usize = 0;
    while i < n
        invariant
            i <= n,
            n == ring@.len(),
            out@.len() == i,
            forall|k: int|
                0 <= k < i ==> out@[k] == if turn {
                    ring@[n - 1 - k]
                } else {
                    ring@[k]
                },
        decreases n - i,
    {
        if turn {
            out.push(ring[n - 1 - i]);
        } else {
            out.push(ring[i]);
        }
        i += 1;
    }
    assert(out@ =~= with_winding(ring@, found, exterior));
    out
}

/// The polygon with every ring in the wanted winding order.
pub open spec fn polygon_with_sfa_winding(polygon: Polygon, wound: Polygon) -> bool {
    &&& wound.exterior@ == with_winding(
        polygon.exterior@,
        winding_order_of(polygon.exterior@),
        true,
    )
    &&& wound.interiors@.len() == polygon.interiors@.len()
    &&& forall|h: int|
        0 <= h < polygon.interiors@.len() ==> (#[trigger] wound.interiors@[h])@ == with_winding(
            polygon.interiors@[h]@,
            winding_order_of(polygon.interiors@[h]@),
            false,
        )
}

/// The winding order of the rings of a multi-polygon can be told exactly
/// where containment in it can be decided: the two bounds are one.
pub proof fn lemma_winding_range_is_contains_range(multi_polygon: MultiPolygon)
    ensures
        multi_polygon.in_winding_range() == multi_polygon.in_contains_range(),
{
    if multi_polygon.in_winding_range() {
        assert forall|p: int, r: int, i: int|
            0 <= p < multi_polygon.len() && 0 <= r < multi_polygon.polygon(p).ring_count() && 0
                <= i < multi_polygon.ring(p, r).len() implies crate::geometry::in_contains_range(
            #[trigger] multi_polygon.ring(p, r)[i],
        ) by {
            assert(ring_in_winding_range(multi_polygon.ring(p, r)));
        }
    }
    if multi_polygon.in_contains_range() {
        assert forall|p: int, r: int|
            0 <= p < multi_polygon.len() && 0 <= r < multi_polygon.polygon(
                p,
            ).ring_count() implies ring_in_winding_range(#[trigger] multi_polygon.ring(p, r)) by {
            let ring = multi_polygon.ring(p, r);
            assert forall|i: int| 0 <= i < ring.len() implies {
                &&& -WINDING_COORDINATE_LIMIT < (#[trigger] ring[i]).x < WINDING_COORDINATE_LIMIT
                &&& -WINDING_COORDINATE_LIMIT < ring[i].y < WINDING_COORDINATE_LIMIT
            } by {
                assert(crate::geometry::in_contains_range(multi_polygon.ring(p, r)[i]));
            }
        }
    }
}

impl MultiPolygon {
    /// Every point of every ring keeps within [`WINDING_COORDINATE_LIMIT`].
    pub open spec fn in_winding_range(self) -> bool {
        forall|p: int, r: int|
            0 <= p < self.len() && 0 <= r < self.polygon(p).ring_count() ==> ring_in_winding_range(
                #[trigger] self.ring(p, r),
            )
    }

    /// Whether every point of every ring keeps within
    /// [`WINDING_COORDINATE_LIMIT`].
    pub fn is_in_winding_range(&self) -> (r: bool)
        ensures
            r == self.in_winding_range(),
    {
        let mut p: usize = 0;
        while p < self.0.len()
            invariant
                p <= self.len(),
                forall|q: int, k: int|
                    0 <= q < p && 0 <= k < self.polygon(q).ring_count() ==> ring_in_winding_range(
                        #[trigger] self.ring(q, k),
                    ),
            decreases self.len() - p,
        {
            let polygon = &self.0[p];
            let mut k: usize = 0;
            loop
                invariant_except_break
                    k <= polygon.interiors@.len(),
                    forall|j: int| 0 <= j < k ==> ring_in_winding_range(#[trigger] polygon.ring(j)),
                invariant
                    polygon == self.polygon(p as int),
                    p < self.len(),
                ensures
                    forall|j: int|
                        0 <= j < polygon.ring_count() ==> ring_in_winding_range(
                            #[trigger] polygon.ring(j),
                        ),
                decreases polygon.interiors@.len() - k,
            {
                if !ring_is_in_winding_range(polygon.ring_at(k)) {
                    assert(!ring_in_winding_range(self.ring(p as int, k as int)));
                    return false;
                }
                if k == polygon.interiors.len() {
                    break ;
                }
                k += 1;
            }
            p += 1;
        }
        true
    }
}

fn ring_is_in_winding_range(ring: &Vec<Coordinate>) -> (r: bool)
    ensures
        r == ring_in_winding_range(ring@),
{
    let mut i: usize = 0;
    while i < ring.len()
        invariant
            i <= ring@.len(),
            forall|k: int|
                0 <= k < i ==> {
                    &&& -WINDING_COORDINATE_LIMIT < (#[trigger] ring@[k]).x < WINDING_COORDINATE_LIMIT
                    &&& -WINDING_COORDINATE_LIMIT < ring@[k].y < WINDING_COORDINATE_LIMIT
                },
        decreases ring@.len() - i,
    {
        let c = ring[i];
        if !(-WINDING_COORDINATE_LIMIT < c.x && c.x < WINDING_COORDINATE_LIMIT
            && -WINDING_COORDINATE_LIMIT < c.y && c.y < WINDING_COORDINATE_LIMIT) {
            return false;
        }
        i += 1;
    }
    true
}

/// Ensure `multi_polygon` uses the Open Geospatial Consortium (OGC) Simple
/// Feature Access standard for polygon ring winding order (outer: CCW, inner:
/// CW).
/// ESRI shapefiles notably use the opposite order.
pub fn ensure_sfa_winding(multi_polygon: &mut MultiPolygon)
    requires
        old(multi_polygon).in_winding_range(),
    ensures
        final(multi_polygon).len() == old(multi_polygon).len(),
        forall|p: int|
            0 <= p < old(multi_polygon).len() ==> polygon_with_sfa_winding(
                old(multi_polygon).polygon(p),
                #[trigger] final(multi_polygon).polygon(p),
            ),
{
    let mut wound: Vec<Polygon> = Vec::new();
    let mut p: usize = 0;
    while p < multi_polygon.0.len()
        invariant
            p <= multi_polygon.len(),
            *multi_polygon == *old(multi_polygon),
            multi_polygon.in_winding_range(),
            wound@.len() == p,
            forall|q: int|
                0 <= q < p ==> polygon_with_sfa_winding(multi_polygon.polygon(q), #[trigger] wound@[q]),
        decreases multi_polygon.len() - p,
    {
        let polygon = &multi_polygon.0[p];
        assert(ring_in_winding_range(multi_polygon.ring(p as int, 0)));
        let exterior = ring_with_winding(&polygon.exterior, winding_order(&polygon.exterior), true);
        let mut interiors: Vec<Vec<Coordinate>> = Vec::new();
        let mut h: usize = 0;
        assert forall|k: int| 0 <= k < polygon.interiors@.len() implies ring_in_winding_range(
            #[trigger] polygon.interiors@[k]@,
        ) by {
            assert(ring_in_winding_range(multi_polygon.ring(p as int, k + 1)));
        }
        while h < polygon.interiors.len()
            invariant
                h <= polygon.interiors@.len(),
                interiors@.len() == h,
                forall|k: int|
                    0 <= k < polygon.interiors@.len() ==> ring_in_winding_range(
                        #[trigger] polygon.interiors@[k]@,
                    ),
                forall|k: int|
                    0 <= k < h ==> (#[trigger] interiors@[k])@ == with_winding(
                        polygon.interiors@[k]@,
                        winding_order_of(polygon.interiors@[k]@),
                        false,
                    ),
            decreases polygon.interiors@.len() - h,
        {
            let ring = &polygon.interiors[h];
            interiors.push(ring_with_winding(ring, winding_order(ring), false));
            h += 1;
        }
        wound.push(Polygon { exterior, interiors });
        p += 1;
    }
    *multi_polygon = MultiPolygon(wound);
}

} // verus!
