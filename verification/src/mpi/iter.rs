use super::mpi::Mpi;
use crate::geometry::{lemma_flatten_step, MultiPolygon};
use vstd::prelude::*;

verus! {

/// Walks the vertices of a multi-polygon in order of polygon, ring and
/// position, skipping the closing coordinate of every ring.
pub struct MpiIter<'a> {
    parent: &'a MultiPolygon,
    current: Mpi,
}

/// The indices of the first `n` vertices of ring `r` of polygon `p`.
pub open spec fn ring_mpis(p: int, r: int, n: nat) -> Seq<Mpi> {
    Seq::new(
        n,
        |i: int| Mpi { polygon_index: p as usize, ring_index: r as usize, coord_index: i as usize },
    )
}

/// The number of vertices of a closed ring: its coordinates less the closing
/// one.
pub open spec fn vertex_count(ring: Seq<crate::geometry::Coordinate>) -> nat {
    if ring.len() >= 1 {
        (ring.len() - 1) as nat
    } else {
        0
    }
}

/// The indices of all vertices of polygon `p`, ring by ring.
pub open spec fn polygon_mpis(mp: MultiPolygon, p: int) -> Seq<Mpi> {
    Seq::new(
        mp.polygon(p).ring_count(),
        |r: int| ring_mpis(p, r, vertex_count(mp.ring(p, r))),
    ).flatten()
}

/// The indices of all vertices of `mp`, polygon by polygon.
pub open spec fn all_mpis(mp: MultiPolygon) -> Seq<Mpi> {
    Seq::new(mp.len(), |p: int| polygon_mpis(mp, p)).flatten()
}

impl<'a> MpiIter<'a> {
    /// The multi-polygon being walked.
    pub closed spec fn parent(self) -> MultiPolygon {
        *self.parent
    }

    /// The position the walk has reached: every index before it has been
    /// handed out or names no vertex.
    pub closed spec fn current(self) -> Mpi {
        self.current
    }

    /// The next vertex index: the least index that names a vertex and is not
    /// before the current position. `None` once no such index is left, and
    /// then the walk stays where no index is left: every later call gives
    /// `None` again.
    pub fn next(&mut self) -> (result: Option<Mpi>)
        ensures
            final(self).parent() == old(self).parent(),
            match result {
                Some(m) => {
                    &&& m.valid_for(old(self).parent())
                    &&& old(self).current().lex_le(m)
                    &&& forall|other: Mpi|
                        other.valid_for(old(self).parent()) && old(self).current().lex_le(other)
                            ==> m.lex_le(other)
                    &&& final(self).current() == Mpi {
                        polygon_index: m.polygon_index,
                        ring_index: m.ring_index,
                        coord_index: (m.coord_index + 1) as usize,
                    }
                },
                None => {
                    &&& forall|other: Mpi|
                        other.valid_for(old(self).parent()) ==> !old(self).current().lex_le(other)
                    &&& forall|other: Mpi|
                        other.valid_for(old(self).parent()) ==> !final(self).current().lex_le(other)
                },
            },
    {
        let parent = self.parent;
        loop
            invariant
                self.parent == parent,
                old(self).parent == parent,
                old(self).current.lex_le(self.current),
                forall|other: Mpi|
                    other.valid_for(*parent) && old(self).current.lex_le(other)
                        ==> self.current.lex_le(other),
            decreases
                    parent.len() - self.current.polygon_index,
                    if self.current.polygon_index < parent.len() && self.current.ring_index
                        <= parent.polygon(self.current.polygon_index as int).interiors@.len() {
                        parent.polygon(self.current.polygon_index as int).interiors@.len() + 1
                            - self.current.ring_index
                    } else {
                        0
                    },
        {
            if self.current.polygon_index >= parent.0.len() {
                return None;
            }
            let polygon = &parent.0[self.current.polygon_index];
            if self.current.ring_index > polygon.interiors.len() {
                self.current.polygon_index += 1;
                self.current.ring_index = 0;
                self.current.coord_index = 0;
                continue;
            }
            let ring = polygon.ring_at(self.current.ring_index);
            // Skip the last coordinate in the ring. A closed ring has the
            // same start and end coordinate. However, we're trying to iterate
            // over all points in the multi-polygon, *not* all the coordinates
            // stored in the data structure.
            let coord_end_index: usize = if ring.len() == 0 {
                0
            } else {
                ring.len() - 1
            };
            if self.current.coord_index >= coord_end_index {
                if self.current.ring_index == polygon.interiors.len() {
                    self.current.polygon_index += 1;
                    self.current.ring_index = 0;
                } else {
                    self.current.ring_index += 1;
                }
                self.current.coord_index = 0;
                continue;
            }
            let result = self.current;
            self.current.coord_index += 1;
            return Some(result);
        }
    }
}

/// What can be walked vertex by vertex.
pub trait MpiCoordsIterable {
    spec fn iterated(&self) -> MultiPolygon;

    /// A walk over the vertex indices, starting at the first.
    fn indexed_coords_iter(&self) -> (it: MpiIter)
        ensures
            it.parent() == self.iterated(),
            it.current() == (Mpi { polygon_index: 0, ring_index: 0, coord_index: 0 }),
    ;
}

impl MpiCoordsIterable for MultiPolygon {
    open spec fn iterated(&self) -> MultiPolygon {
        *self
    }

    fn indexed_coords_iter(&self) -> (it: MpiIter) {
        MpiIter { parent: self, current: Mpi { polygon_index: 0, ring_index: 0, coord_index: 0 } }
    }
}

impl Mpi {
    /// `self` comes strictly before `other` by polygon, ring and position.
    pub open spec fn lex_lt(self, other: Mpi) -> bool {
        self.lex_le(other) && self != other
    }
}

/// The indices in `s` are in strictly ascending order.
pub open spec fn strictly_ascending(s: Seq<Mpi>) -> bool {
    forall|i: int, j: int| 0 <= i < j < s.len() ==> (#[trigger] s[i]).lex_lt(#[trigger] s[j])
}

/// The vertex indices of the first `k` rings of polygon `p`.
pub open spec fn leading_ring_mpis(mp: MultiPolygon, p: int, k: nat) -> Seq<Mpi> {
    Seq::new(k, |r: int| ring_mpis(p, r, vertex_count(mp.ring(p, r)))).flatten()
}

/// The vertex indices of the first `k` polygons.
pub open spec fn leading_polygon_mpis(mp: MultiPolygon, k: nat) -> Seq<Mpi> {
    Seq::new(k, |p: int| polygon_mpis(mp, p)).flatten()
}

/// The indices of the first `k` rings of a polygon ascend, name vertices of
/// that polygon, and stay within those rings.
pub proof fn lemma_leading_ring_mpis(mp: MultiPolygon, p: int, k: nat)
    requires
        0 <= p < mp.len(),
        k <= mp.polygon(p).ring_count(),
        mp.len() <= usize::MAX,
        mp.polygon(p).interiors@.len() <= usize::MAX,
        forall|r: int|
            0 <= r < mp.polygon(p).ring_count() ==> (#[trigger] mp.ring(p, r)).len() <= usize::MAX,
    ensures
        strictly_ascending(leading_ring_mpis(mp, p, k)),
        forall|i: int|
            0 <= i < leading_ring_mpis(mp, p, k).len() ==> {
                let m = #[trigger] leading_ring_mpis(mp, p, k)[i];
                m.valid_for(mp) && m.polygon_index == p && m.ring_index < k
            },
        forall|m: Mpi|
            m.valid_for(mp) && m.polygon_index == p && m.ring_index < k ==> leading_ring_mpis(
                mp,
                p,
                k,
            ).contains(m),
    decreases k,
{
    let rings = |r: int| ring_mpis(p, r, vertex_count(mp.ring(p, r)));
    if k == 0 {
        assert(Seq::new(0, rings).flatten() =~= Seq::<Mpi>::empty());
    } else {
        lemma_leading_ring_mpis(mp, p, (k - 1) as nat);
        lemma_flatten_step((k - 1) as nat, rings);
        let head = leading_ring_mpis(mp, p, (k - 1) as nat);
        let last = rings(k - 1);
        let all = leading_ring_mpis(mp, p, k);
        assert(all == head + last);
        assert forall|i: int, j: int| 0 <= i < j < all.len() implies (#[trigger] all[i]).lex_lt(
            #[trigger] all[j],
        ) by {
            if j < head.len() {
                assert(head[i].lex_lt(head[j]));
            } else if i < head.len() {
                assert(all[j] == last[j - head.len()]);
                assert(all[i] == head[i]);
            } else {
                assert(all[j] == last[j - head.len()]);
                assert(all[i] == last[i - head.len()]);
            }
        }
        assert forall|i: int| 0 <= i < all.len() implies {
            let m = #[trigger] all[i];
            m.valid_for(mp) && m.polygon_index == p && m.ring_index < k
        } by {
            if i < head.len() {
                assert(all[i] == head[i]);
            } else {
                assert(all[i] == last[i - head.len()]);
            }
        }
        assert forall|m: Mpi|
            m.valid_for(mp) && m.polygon_index == p && m.ring_index < k implies all.contains(m) by {
            if m.ring_index < k - 1 {
                assert(head.contains(m));
                let i = choose|i: int| 0 <= i < head.len() && head[i] == m;
                assert(all[i] == m);
            } else {
                assert(last[m.coord_index as int] == m);
                assert(all[head.len() + m.coord_index] == m);
            }
        }
    }
}

/// The indices of the first `k` polygons ascend and name exactly the
/// vertices of those polygons.
pub proof fn lemma_leading_polygon_mpis(mp: MultiPolygon, k: nat)
    requires
        k <= mp.len(),
        mp.len() <= usize::MAX,
        forall|p: int|
            0 <= p < mp.len() ==> (#[trigger] mp.polygon(p)).interiors@.len() <= usize::MAX,
        forall|p: int, r: int|
            0 <= p < mp.len() && 0 <= r < mp.polygon(p).ring_count() ==> (#[trigger] mp.ring(
                p,
                r,
            )).len() <= usize::MAX,
    ensures
        strictly_ascending(leading_polygon_mpis(mp, k)),
        forall|i: int|
            0 <= i < leading_polygon_mpis(mp, k).len() ==> {
                let m = #[trigger] leading_polygon_mpis(mp, k)[i];
                m.valid_for(mp) && m.polygon_index < k
            },
        forall|m: Mpi|
            m.valid_for(mp) && m.polygon_index < k ==> leading_polygon_mpis(mp, k).contains(m),
    decreases k,
{
    let polygons = |p: int| polygon_mpis(mp, p);
    if k == 0 {
        assert(Seq::new(0, polygons).flatten() =~= Seq::<Mpi>::empty());
    } else {
        lemma_leading_polygon_mpis(mp, (k - 1) as nat);
        lemma_flatten_step((k - 1) as nat, polygons);
        lemma_leading_ring_mpis(mp, k - 1, mp.polygon(k - 1).ring_count());
        let head = leading_polygon_mpis(mp, (k - 1) as nat);
        let last = polygons(k - 1);
        let all = leading_polygon_mpis(mp, k);
        assert(last == leading_ring_mpis(mp, k - 1, mp.polygon(k - 1).ring_count()));
        assert(all == head + last);
        assert forall|i: int, j: int| 0 <= i < j < all.len() implies (#[trigger] all[i]).lex_lt(
            #[trigger] all[j],
        ) by {
            if j < head.len() {
                assert(head[i].lex_lt(head[j]));
            } else if i < head.len() {
                assert(all[j] == last[j - head.len()]);
                assert(all[i] == head[i]);
            } else {
                assert(all[j] == last[j - head.len()]);
                assert(all[i] == last[i - head.len()]);
                assert(last[i - head.len()].lex_lt(last[j - head.len()]));
            }
        }
        assert forall|i: int| 0 <= i < all.len() implies {
            let m = #[trigger] all[i];
            m.valid_for(mp) && m.polygon_index < k
        } by {
            if i < head.len() {
                assert(all[i] == head[i]);
            } else {
                assert(all[i] == last[i - head.len()]);
            }
        }
        assert forall|m: Mpi| m.valid_for(mp) && m.polygon_index < k implies all.contains(m) by {
            if m.polygon_index < k - 1 {
                assert(head.contains(m));
                let i = choose|i: int| 0 <= i < head.len() && head[i] == m;
                assert(all[i] == m);
            } else {
                assert(last.contains(m));
                let i = choose|i: int| 0 <= i < last.len() && last[i] == m;
                assert(all[head.len() + i] == m);
            }
        }
    }
}

/// The enumeration of a multi-polygon holds every vertex index exactly once,
/// in ascending order, and nothing else.
pub proof fn lemma_all_mpis(mp: MultiPolygon)
    ensures
        strictly_ascending(all_mpis(mp)),
        all_mpis(mp).no_duplicates(),
        forall|i: int| 0 <= i < all_mpis(mp).len() ==> (#[trigger] all_mpis(mp)[i]).valid_for(mp),
        forall|m: Mpi| m.valid_for(mp) ==> all_mpis(mp).contains(m),
{
    assert(mp.0.len() == mp.len());
    assert forall|p: int| 0 <= p < mp.len() implies (#[trigger] mp.polygon(p)).interiors@.len()
        <= usize::MAX by {
        assert(mp.polygon(p).interiors.len() == mp.polygon(p).interiors@.len());
    }
    assert forall|p: int, r: int|
        0 <= p < mp.len() && 0 <= r < mp.polygon(p).ring_count() implies (#[trigger] mp.ring(
        p,
        r,
    )).len() <= usize::MAX by {
        if r == 0 {
            assert(mp.polygon(p).exterior.len() == mp.ring(p, r).len());
        } else {
            assert(mp.polygon(p).interiors@[r - 1].len() == mp.ring(p, r).len());
        }
    }
    lemma_leading_polygon_mpis(mp, mp.len());
    let s = all_mpis(mp);
    assert forall|i: int, j: int| 0 <= i < s.len() && 0 <= j < s.len() && i != j implies s[i]
        != s[j] by {
        if i < j {
            assert(s[i].lex_lt(s[j]));
        } else {
            assert(s[j].lex_lt(s[i]));
        }
    }
}

/// The position after a vertex index is an index too: rings are not so long
/// that it would not fit.
pub proof fn lemma_coord_index_fits(mpi: Mpi, mp: MultiPolygon)
    requires
        mpi.valid_for(mp),
    ensures
        mpi.coord_index + 1 <= usize::MAX,
{
    let polygon = mp.polygon(mpi.polygon_index as int);
    if mpi.ring_index == 0 {
        assert(polygon.exterior.len() == mpi.ring_in(mp).len());
    } else {
        assert(polygon.interiors@[mpi.ring_index - 1].len() == mpi.ring_in(mp).len());
    }
}

impl<'a> MpiIter<'a> {
    /// Walks to the end and hands back every index met on the way: for a walk
    /// that has not begun, the indices of all vertices, in order.
    pub fn collect(self) -> (out: Vec<Mpi>)
        requires
            self.current() == (Mpi { polygon_index: 0, ring_index: 0, coord_index: 0 }),
        ensures
            out@ == all_mpis(self.parent()),
    {
        let mut walk = self;
        let mut out: Vec<Mpi> = Vec::new();
        let ghost all = all_mpis(self.parent());
        proof {
            lemma_all_mpis(self.parent());
            assert(out@ =~= all.take(0));
        }
        loop
            invariant_except_break
                forall|j: int| 0 <= j < out@.len() ==> (#[trigger] all[j]).lex_lt(walk.current()),
                forall|m: Mpi|
                    m.valid_for(self.parent()) && m.lex_lt(walk.current()) ==> out@.contains(m),
            invariant
                walk.parent() == self.parent(),
                all == all_mpis(self.parent()),
                strictly_ascending(all),
                all.no_duplicates(),
                forall|i: int| 0 <= i < all.len() ==> (#[trigger] all[i]).valid_for(self.parent()),
                forall|m: Mpi| m.valid_for(self.parent()) ==> all.contains(m),
                out@.len() <= all.len(),
                out@ == all.take(out@.len() as int),
            ensures
                out@ == all,
            decreases all.len() - out@.len(),
        {
            let ghost position = walk.current();
            let ghost k = out@.len() as int;
            match walk.next() {
                None => {
                    proof {
                        if k < all.len() {
                            let m = all[k];
                            assert(m.valid_for(self.parent()));
                            assert(!position.lex_le(m));
                            assert(out@.contains(m));
                            let j = choose|j: int| 0 <= j < out@.len() && out@[j] == m;
                            assert(all[j] == all[k]);
                        }
                        assert(all.take(all.len() as int) =~= all);
                    }
                    break ;
                },
                Some(m) => {
                    proof {
                        assert(all.contains(m));
                        let j = choose|j: int| 0 <= j < all.len() && all[j] == m;
                        if j < k {
                            assert(all[j].lex_lt(position));
                        }
                        // the next entry of the enumeration is not before the
                        // position, so the walk cannot have passed it
                        let next = all[k];
                        assert(next.valid_for(self.parent()));
                        if next.lex_lt(position) {
                            assert(out@.contains(next));
                            let i = choose|i: int| 0 <= i < out@.len() && out@[i] == next;
                            assert(all[i] == all[k]);
                        }
                        assert(position.lex_le(next));
                        assert(m.lex_le(next));
                        if j > k {
                            assert(all[k].lex_lt(all[j]));
                        }
                        assert(j == k);
                    }
                    out.push(m);
                    proof {
                        lemma_coord_index_fits(m, self.parent());
                        assert(m.lex_lt(walk.current()));
                        assert forall|j: int| 0 <= j < out@.len() implies (#[trigger] all[j]).lex_lt(
                            walk.current(),
                        ) by {
                            if j < k {
                                assert(all[j].lex_lt(position));
                            }
                        }
                        assert(out@ =~= all.take(k + 1));
                        assert forall|x: Mpi|
                            x.valid_for(self.parent()) && x.lex_lt(
                                walk.current(),
                            ) implies out@.contains(x) by {
                            if x.lex_lt(position) {
                                let i = choose|i: int| 0 <= i < k && all.take(k)[i] == x;
                                assert(out@[i] == x);
                            } else {
                                assert(position.lex_le(x));
                                assert(m.lex_le(x));
                                assert(x == m);
                                assert(out@[k] == m);
                            }
                        }
                    }
                },
            }
        }
        out
    }
}

} // verus!
