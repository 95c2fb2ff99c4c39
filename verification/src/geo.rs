//! Positions on the ground.
use vstd::prelude::*;

use crate::number;
use crate::number::Real;

verus! {

/// Side of a tile, in pixels.
pub const TILE_PX: u32 = 256;

/// A position, in degrees.
#[derive(Clone, Copy, Debug, PartialEq, Eq, Structural)]
pub struct LatLon {
    pub lat: Real,
    pub lon: Real,
}

impl LatLon {
    pub fn new(lat: Real, lon: Real) -> (ll: Self)
        ensures
            ll.lat == lat,
            ll.lon == lon,
    {
        LatLon { lat, lon }
    }

    /// Two positions are the same, number by number.
    pub open spec fn level_with(self, other: LatLon) -> bool {
        self.lat.level_with(other.lat) && self.lon.level_with(other.lon)
    }

    /// Whether two positions are the same, number by number: none is where a
    /// coordinate is not a number.
    pub fn same(self, other: LatLon) -> (b: bool)
        ensures
            b == self.level_with(other),
    {
        self.lat.same(other.lat) && self.lon.same(other.lon)
    }
}

/// A window of latitudes and longitudes.
#[derive(Clone, Copy, Debug, PartialEq, Eq, Structural)]
pub struct Bounds {
    pub south: Real,
    pub west: Real,
    pub north: Real,
    pub east: Real,
}

/// The window that some points span, and an inside-out one where there are none.
pub open spec fn bounds_of(points: Seq<LatLon>) -> Bounds
    decreases points.len(),
{
    if points.len() == 0 {
        Bounds {
            south: Real { bits: number::LARGEST },
            west: Real { bits: number::LARGEST },
            north: Real { bits: number::SMALLEST },
            east: Real { bits: number::SMALLEST },
        }
    } else {
        let b = bounds_of(points.drop_last());
        let p = points.last();
        Bounds {
            south: b.south.lesser(p.lat),
            west: b.west.lesser(p.lon),
            north: b.north.greater(p.lat),
            east: b.east.greater(p.lon),
        }
    }
}

impl Bounds {
    /// Whether two windows have a point in common, borders included.
    pub open spec fn meets(self, view: Bounds) -> bool {
        &&& self.south.at_most(view.north)
        &&& view.south.at_most(self.north)
        &&& self.west.at_most(view.east)
        &&& view.west.at_most(self.east)
    }

    /// Whether a position lies in the window, borders included.
    pub open spec fn holds(self, p: LatLon) -> bool {
        &&& self.south.at_most(p.lat)
        &&& p.lat.at_most(self.north)
        &&& self.west.at_most(p.lon)
        &&& p.lon.at_most(self.east)
    }

    /// The window that some points span.
    pub fn around(points: &Vec<LatLon>) -> (b: Self)
        ensures
            b == bounds_of(points@),
    {
        let mut b = Bounds {
            south: Real { bits: number::LARGEST },
            west: Real { bits: number::LARGEST },
            north: Real { bits: number::SMALLEST },
            east: Real { bits: number::SMALLEST },
        };
        let mut i: usize = 0;
        while i < points.len()
            invariant
                i <= points@.len(),
                b == bounds_of(points@.take(i as int)),
            decreases points@.len() - i,
        {
            assert(points@.take(i + 1).drop_last() =~= points@.take(i as int));
            let p: LatLon = points[i];
            b = Bounds {
                south: b.south.min(p.lat),
                west: b.west.min(p.lon),
                north: b.north.max(p.lat),
                east: b.east.max(p.lon),
            };
            i = i + 1;
        }
        assert(points@.take(i as int) =~= points@);
        b
    }

    /// Whether two windows have a point in common, borders included.
    pub fn intersects(&self, view: Bounds) -> (r: bool)
        ensures
            r == self.meets(view),
    {
        self.south.le(view.north) && view.south.le(self.north) && self.west.le(view.east)
            && view.west.le(self.east)
    }

    /// Whether a position lies in the window, borders included.
    pub fn contains(&self, p: LatLon) -> (r: bool)
        ensures
            r == self.holds(p),
    {
        self.south.le(p.lat) && p.lat.le(self.north) && self.west.le(p.lon) && p.lon.le(self.east)
    }
}

/// The window around some finite points holds each of them.
pub proof fn law_bounds_hold_their_points(points: Seq<LatLon>, i: int)
    requires
        0 <= i < points.len(),
        forall|j: int| 0 <= j < points.len() ==> finite(#[trigger] points[j]),
    ensures
        bounds_of(points).holds(points[i]),
{
    lemma_bounds(points);
}

/// Both coordinates are finite numbers.
pub open spec fn finite(p: LatLon) -> bool {
    &&& (Real { bits: number::SMALLEST }).at_most(p.lat)
    &&& p.lat.at_most(Real { bits: number::LARGEST })
    &&& (Real { bits: number::SMALLEST }).at_most(p.lon)
    &&& p.lon.at_most(Real { bits: number::LARGEST })
}

proof fn lemma_bounds(points: Seq<LatLon>)
    requires
        forall|j: int| 0 <= j < points.len() ==> finite(#[trigger] points[j]),
    ensures
        !bounds_of(points).south.nan(),
        !bounds_of(points).west.nan(),
        !bounds_of(points).north.nan(),
        !bounds_of(points).east.nan(),
        forall|i: int| 0 <= i < points.len() ==> bounds_of(points).holds(#[trigger] points[i]),
    decreases points.len(),
{
    if points.len() > 0 {
        let less = points.drop_last();
        assert forall|j: int| 0 <= j < less.len() implies finite(#[trigger] less[j]) by {
            assert(less[j] == points[j]);
        }
        lemma_bounds(less);
        assert(finite(points[points.len() - 1]));
        assert forall|i: int| 0 <= i < points.len() implies bounds_of(points).holds(
            #[trigger] points[i],
        ) by {
            if i < less.len() {
                assert(bounds_of(less).holds(less[i]));
            }
        }
    }
}

/// A window ends at its points: each of its borders is a coordinate of one of
/// them.
pub proof fn law_bounds_reach_no_further(points: Seq<LatLon>)
    requires
        points.len() > 0,
        forall|j: int| 0 <= j < points.len() ==> finite(#[trigger] points[j]),
    ensures
        exists|i: int|
            0 <= i < points.len() && (#[trigger] points[i]).lat.level_with(bounds_of(points).south),
        exists|i: int|
            0 <= i < points.len() && (#[trigger] points[i]).lat.level_with(bounds_of(points).north),
        exists|i: int|
            0 <= i < points.len() && (#[trigger] points[i]).lon.level_with(bounds_of(points).west),
        exists|i: int|
            0 <= i < points.len() && (#[trigger] points[i]).lon.level_with(bounds_of(points).east),
    decreases points.len(),
{
    let less = points.drop_last();
    let end = points.len() - 1;
    assert(finite(points[end]));
    if less.len() > 0 {
        assert forall|j: int| 0 <= j < less.len() implies finite(#[trigger] less[j]) by {
            assert(less[j] == points[j]);
        }
        law_bounds_reach_no_further(less);
        lemma_bounds(less);
        let b = bounds_of(less);
        let s = choose|i: int| 0 <= i < less.len() && (#[trigger] less[i]).lat.level_with(b.south);
        let n = choose|i: int| 0 <= i < less.len() && (#[trigger] less[i]).lat.level_with(b.north);
        let w = choose|i: int| 0 <= i < less.len() && (#[trigger] less[i]).lon.level_with(b.west);
        let e = choose|i: int| 0 <= i < less.len() && (#[trigger] less[i]).lon.level_with(b.east);
        assert(points[s] == less[s] && points[n] == less[n] && points[w] == less[w] && points[e]
            == less[e]);
    } else {
        assert(bounds_of(less) == (Bounds {
            south: Real { bits: number::LARGEST },
            west: Real { bits: number::LARGEST },
            north: Real { bits: number::SMALLEST },
            east: Real { bits: number::SMALLEST },
        }));
        let p = points[end];
        assert(bounds_of(points).south.level_with(p.lat));
        assert(bounds_of(points).north.level_with(p.lat));
        assert(bounds_of(points).west.level_with(p.lon));
        assert(bounds_of(points).east.level_with(p.lon));
    }
}

/// A window holds a position that lies neither south, nor north, nor west, nor
/// east of it.
pub proof fn law_a_window_holds_what_lies_between(b: Bounds, p: LatLon)
    requires
        !b.south.nan(),
        !b.west.nan(),
        !b.north.nan(),
        !b.east.nan(),
        !p.lat.nan(),
        !p.lon.nan(),
    ensures
        b.holds(p) <==> !(p.lat.below(b.south) || b.north.below(p.lat) || p.lon.below(b.west)
            || b.east.below(p.lon)),
{
}

/// Two windows meet just where a position lies in both.
pub proof fn law_windows_meet_where_they_share_a_position(a: Bounds, b: Bounds)
    requires
        a.south.at_most(a.north),
        a.west.at_most(a.east),
        b.south.at_most(b.north),
        b.west.at_most(b.east),
    ensures
        a.meets(b) <==> exists|p: LatLon| #[trigger] a.holds(p) && b.holds(p),
        a.meets(b) == b.meets(a),
{
    if a.meets(b) {
        let p = LatLon { lat: a.south.greater(b.south), lon: a.west.greater(b.west) };
        assert(a.holds(p) && b.holds(p));
    }
}

/// Two positions are the same where neither lies further north, south, east or west than
/// the other.
pub proof fn law_the_same_position(a: LatLon, b: LatLon)
    requires
        !a.lat.nan(),
        !a.lon.nan(),
        !b.lat.nan(),
        !b.lon.nan(),
    ensures
        a.level_with(b) <==> !(a.lat.below(b.lat) || b.lat.below(a.lat) || a.lon.below(b.lon)
            || b.lon.below(a.lon)),
{
}

} // verus!
