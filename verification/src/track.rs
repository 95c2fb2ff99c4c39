//! The track: waypoints, the line between them, its profile, and its legs.
use vstd::prelude::*;

use crate::figures::{compute_stats, Pace};
use crate::geo::LatLon;
use crate::number::{Real, Single};
use crate::text;
use crate::text::put_decimal;
use crate::trails::network;
use crate::trails::network::TrailNetwork;
use crate::trails::way::{Snap, Way};

verus! {

/// Most samples that a profile is laid out for.
pub const MAX_SAMPLES: usize = 4000;

/// The pattern of three metres. A change of elevation counts only past it, for
/// otherwise the noise of the data would inflate the climb.
pub const ASCENT_THRESHOLD_BITS: u32 = 0x4040_0000;

/// The pattern of minus three metres.
pub const DESCENT_THRESHOLD_BITS: u32 = 0xc040_0000;

/// A point of the profile.
#[derive(Clone, Copy, Debug, PartialEq, Eq, Structural)]
pub struct Sample {
    pub dist_m: Real,
    pub pos: LatLon,
    pub elev_m: Option<Single>,
}

/// Which model turns geometry into hours.
#[derive(Clone, Copy, Debug, PartialEq, Eq, Structural)]
pub enum SpeedModel {
    /// Flat distance and total ascent, two independent rates. Ignores descent.
    Naismith,
    /// Speed by the local slope, segment by segment.
    Tobler,
}

impl SpeedModel {
    /// The models there are.
    pub fn all() -> (v: Vec<SpeedModel>)
        ensures
            v@ == seq![SpeedModel::Naismith, SpeedModel::Tobler],
    {
        let mut v: Vec<SpeedModel> = Vec::new();
        v.push(SpeedModel::Naismith);
        v.push(SpeedModel::Tobler);
        assert(v@ =~= seq![SpeedModel::Naismith, SpeedModel::Tobler]);
        v
    }

    pub fn label(self) -> (s: &'static str)
        ensures
            s@ == match self {
                SpeedModel::Naismith => "Naismith"@,
                SpeedModel::Tobler => "Tobler"@,
            },
    {
        match self {
            SpeedModel::Naismith => "Naismith",
            SpeedModel::Tobler => "Tobler",
        }
    }
}

/// The figures of a track or of a leg.
#[derive(Clone, Copy, Debug, PartialEq, Eq, Structural)]
pub struct TrackStats {
    pub distance_m: Real,
    pub ascent_m: Real,
    pub descent_m: Real,
    pub min_elev_m: Option<Single>,
    pub max_elev_m: Option<Single>,
    /// Walking time at an unloaded pace. The load only ever divides it.
    pub base_time_h: Real,
    pub time_h: Real,
    /// False while elevations are missing: the figures are partial.
    pub elevation_complete: bool,
}

/// Figures of nothing.
pub open spec fn no_stats() -> TrackStats {
    TrackStats {
        distance_m: Real { bits: 0 },
        ascent_m: Real { bits: 0 },
        descent_m: Real { bits: 0 },
        min_elev_m: None,
        max_elev_m: None,
        base_time_h: Real { bits: 0 },
        time_h: Real { bits: 0 },
        elevation_complete: false,
    }
}

impl Default for TrackStats {
    fn default() -> (s: Self)
        ensures
            s == no_stats(),
    {
        TrackStats {
            distance_m: Real { bits: 0 },
            ascent_m: Real { bits: 0 },
            descent_m: Real { bits: 0 },
            min_elev_m: None,
            max_elev_m: None,
            base_time_h: Real { bits: 0 },
            time_h: Real { bits: 0 },
            elevation_complete: false,
        }
    }
}

/// A point placed by the user. A snap makes it possible to follow the trail.
#[derive(Clone, Debug)]
pub struct Waypoint {
    pub pos: LatLon,
    pub snap: Option<Snap>,
    /// Geometry from the previous waypoint, when it comes from the graph. It goes
    /// before following the way, which can only join two points of one way.
    pub via: Option<Vec<LatLon>>,
}

impl Waypoint {
    pub fn free(pos: LatLon) -> (w: Self)
        ensures
            w.pos == pos,
            w.snap is None,
            w.via is None,
    {
        Waypoint { pos, snap: None, via: None }
    }

    pub fn snapped(snap: Snap) -> (w: Self)
        ensures
            w.pos == snap.pos,
            w.snap == Some(snap),
            w.via is None,
    {
        Waypoint { pos: snap.pos, snap: Some(snap), via: None }
    }

    pub fn routed(snap: Snap, via: Vec<LatLon>) -> (w: Self)
        ensures
            w.pos == snap.pos,
            w.snap == Some(snap),
            w.via == Some(via),
    {
        Waypoint { pos: snap.pos, snap: Some(snap), via: Some(via) }
    }
}

// ---------------------------------------------------------------------------
// The line
// ---------------------------------------------------------------------------

/// A snap lies on a segment of its way, if the way is there.
pub open spec fn snap_fits(ways: Seq<Way>, w: Waypoint) -> bool {
    w.snap matches Some(s) ==> (network::place_of(ways, s.way_id) matches Some(k) ==> s.seg
        < ways[k].points@.len())
}

/// The points of a leg, when it follows a known trail.
pub open spec fn leg_points(ways: Seq<Way>, a: Waypoint, b: Waypoint) -> Option<Seq<LatLon>> {
    match b.via {
        Some(via) => Some(via@),
        None => match (a.snap, b.snap) {
            (Some(from), Some(to)) => if from.way_id == to.way_id && network::place_of(
                ways,
                from.way_id,
            ) is Some {
                Some(
                    network::followed(
                        ways[network::place_of(ways, from.way_id)->0].points@,
                        from,
                        to,
                    ),
                )
            } else {
                None
            },
            _ => None,
        },
    }
}

/// Points without the first one.
pub open spec fn behind_first(points: Seq<LatLon>) -> Seq<LatLon> {
    if points.len() == 0 {
        points
    } else {
        points.skip(1)
    }
}

/// The line up to a waypoint: the trail where a leg follows one, and a straight
/// stretch otherwise.
pub open spec fn line_to(ways: Seq<Way>, waypoints: Seq<Waypoint>, k: int) -> Seq<LatLon>
    decreases k,
{
    if k <= 0 {
        seq![waypoints[0].pos]
    } else {
        line_to(ways, waypoints, k - 1) + match leg_points(ways, waypoints[k - 1], waypoints[k]) {
            Some(points) => behind_first(points),
            None => seq![waypoints[k].pos],
        }
    }
}

/// The line through all waypoints.
pub open spec fn line_of(ways: Seq<Way>, waypoints: Seq<Waypoint>) -> Seq<LatLon> {
    if waypoints.len() == 0 {
        seq![]
    } else {
        line_to(ways, waypoints, waypoints.len() - 1)
    }
}

/// Where each waypoint stands on the line.
pub open spec fn vertices_of(ways: Seq<Way>, waypoints: Seq<Waypoint>) -> Seq<int> {
    Seq::new(waypoints.len(), |k: int| line_to(ways, waypoints, k).len() - 1)
}

fn copy_points(points: &Vec<LatLon>) -> (v: Vec<LatLon>)
    ensures
        v@ == points@,
{
    let mut out: Vec<LatLon> = Vec::new();
    let mut i: usize = 0;
    while i < points.len()
        invariant
            i <= points@.len(),
            out@ == points@.take(i as int),
        decreases points@.len() - i,
    {
        out.push(points[i]);
        assert(out@ =~= points@.take(i + 1));
        i = i + 1;
    }
    assert(points@.take(i as int) =~= points@);
    out
}

/// The points of a leg, when it follows a known trail.
pub fn leg_geometry(net: &TrailNetwork, a: &Waypoint, b: &Waypoint) -> (r: Option<Vec<LatLon>>)
    requires
        net.wf(),
        snap_fits(net.list(), *a),
        snap_fits(net.list(), *b),
    ensures
        match r {
            Some(v) => leg_points(net.list(), *a, *b) == Some(v@),
            None => leg_points(net.list(), *a, *b) is None,
        },
{
    if let Some(via) = &b.via {
        return Some(copy_points(via));
    }
    match (&a.snap, &b.snap) {
        (Some(from), Some(to)) => net.follow(from, to),
        _ => None,
    }
}

// ---------------------------------------------------------------------------
// Sampling
// ---------------------------------------------------------------------------

/// How many samples the first `k` segments add.
pub open spec fn count_to(counts: Seq<usize>, k: int) -> nat
    decreases k,
{
    if k <= 0 {
        0
    } else {
        count_to(counts, k - 1) + counts[k - 1] as nat
    }
}

/// The samples of the line and, for each of its vertices, the sample that lies on
/// it.
///
/// Each segment is given with the number of samples that it adds, and `at` gives
/// one of them by segment and place. A segment without a length adds none, and
/// its vertex is the last sample.
pub fn sample_polyline<F: Fn(usize, usize) -> Sample>(
    points: &Vec<LatLon>,
    counts: &Vec<usize>,
    at: F,
) -> (r: (Vec<Sample>, Vec<usize>))
    requires
        points@.len() > 0 ==> counts@.len() + 1 == points@.len(),
        count_to(counts@, counts@.len() as int) < usize::MAX,
        forall|s: usize, k: usize| call_requires(at, (s, k)),
    ensures
        points@.len() == 0 ==> r.0@.len() == 0 && r.1@.len() == 0,
        points@.len() > 0 ==> {
            &&& r.0@.len() == 1 + count_to(counts@, counts@.len() as int)
            &&& r.0@[0] == (Sample {
                dist_m: Real { bits: 0 },
                pos: points@[0],
                elev_m: None,
            })
            &&& r.1@.len() == points@.len()
            &&& forall|k: int|
                0 <= k < points@.len() ==> #[trigger] r.1@[k] == count_to(counts@, k)
            &&& forall|s: int, k: int|
                0 <= s < counts@.len() && 1 <= k <= counts@[s] ==> call_ensures(
                    at,
                    (s as usize, k as usize),
                    #[trigger] r.0@[count_to(counts@, s) + k],
                )
        },
{
    let mut out: Vec<Sample> = Vec::new();
    let mut vertex: Vec<usize> = Vec::new();
    if points.len() == 0 {
        return (out, vertex);
    }
    out.push(Sample { dist_m: Real { bits: 0 }, pos: points[0], elev_m: None });
    vertex.push(0);
    let mut s: usize = 0;
    while s < counts.len()
        invariant
            points@.len() > 0,
            counts@.len() + 1 == points@.len(),
            count_to(counts@, counts@.len() as int) < usize::MAX,
            forall|s: usize, k: usize| call_requires(at, (s, k)),
            s <= counts@.len(),
            out@.len() == 1 + count_to(counts@, s as int),
            out@[0] == (Sample { dist_m: Real { bits: 0 }, pos: points@[0], elev_m: None }),
            vertex@.len() == s + 1,
            forall|k: int| 0 <= k <= s ==> #[trigger] vertex@[k] == count_to(counts@, k),
            forall|i: int, k: int|
                0 <= i < s && 1 <= k <= counts@[i] ==> call_ensures(
                    at,
                    (i as usize, k as usize),
                    #[trigger] out@[count_to(counts@, i) + k],
                ),
        decreases counts@.len() - s,
    {
        proof {
            lemma_count_grows(counts@, s + 1, counts@.len() as int);
        }
        let n: usize = counts[s];
        let ghost base = out@;
        let mut k: usize = 1;
        while k - 1 < n
            invariant
                s < counts@.len(),
                n == counts@[s as int],
                1 <= k <= n + 1,
                count_to(counts@, s as int) + n < usize::MAX,
                forall|s: usize, k: usize| call_requires(at, (s, k)),
                base.len() == 1 + count_to(counts@, s as int),
                out@.len() == base.len() + k - 1,
                forall|j: int| 0 <= j < base.len() ==> #[trigger] out@[j] == base[j],
                forall|j: int|
                    1 <= j < k ==> call_ensures(
                        at,
                        (s, j as usize),
                        #[trigger] out@[count_to(counts@, s as int) + j],
                    ),
            decreases n + 1 - k,
        {
            let x: Sample = at(s, k);
            let ghost had = out@;
            out.push(x);
            assert forall|j: int| 1 <= j < k + 1 implies call_ensures(
                at,
                (s, j as usize),
                #[trigger] out@[count_to(counts@, s as int) + j],
            ) by {
                if j < k {
                    assert(out@[count_to(counts@, s as int) + j] == had[count_to(counts@, s as int)
                        + j]);
                }
            }
            k = k + 1;
        }
        assert forall|i: int, j: int|
            0 <= i < s + 1 && 1 <= j <= counts@[i] implies call_ensures(
            at,
            (i as usize, j as usize),
            #[trigger] out@[count_to(counts@, i) + j],
        ) by {
            if i < s {
                lemma_count_grows(counts@, i + 1, s as int);
                assert(out@[count_to(counts@, i) + j] == base[count_to(counts@, i) + j]);
            }
        }
        vertex.push(out.len() - 1);
        s = s + 1;
    }
    (out, vertex)
}

proof fn lemma_count_grows(counts: Seq<usize>, a: int, b: int)
    requires
        0 <= a <= b,
    ensures
        count_to(counts, a) <= count_to(counts, b),
    decreases b - a,
{
    if a < b {
        lemma_count_grows(counts, a, b - 1);
    }
}

// ---------------------------------------------------------------------------
// Climb
// ---------------------------------------------------------------------------

/// Elevations that are there.
pub open spec fn present(elevs: Seq<Option<Single>>) -> Seq<Single>
    decreases elevs.len(),
{
    if elevs.len() == 0 {
        seq![]
    } else {
        let rest = present(elevs.drop_last());
        match elevs.last() {
            Some(e) => rest.push(e),
            None => rest,
        }
    }
}

/// The lowest of some elevations.
pub open spec fn lowest(elevs: Seq<Single>) -> Option<Single>
    decreases elevs.len(),
{
    if elevs.len() == 0 {
        None
    } else {
        match lowest(elevs.drop_last()) {
            Some(m) => Some(m.lesser(elevs.last())),
            None => Some(elevs.last()),
        }
    }
}

/// The highest of some elevations.
pub open spec fn highest(elevs: Seq<Single>) -> Option<Single>
    decreases elevs.len(),
{
    if elevs.len() == 0 {
        None
    } else {
        match highest(elevs.drop_last()) {
            Some(m) => Some(m.greater(elevs.last())),
            None => Some(elevs.last()),
        }
    }
}

/// A difference past the threshold, up or down.
pub open spec fn counts_as_climb(d: Single) -> bool {
    (Single { bits: ASCENT_THRESHOLD_BITS }).below(d) || d.below(
        Single { bits: DESCENT_THRESHOLD_BITS },
    )
}

/// The place of the elevation that the one at `k` is held against: the last one
/// that counted, or the first. The differences are given, each to the elevation
/// it was held against.
pub open spec fn anchor_at(diffs: Seq<Single>, k: int) -> int
    decreases k,
{
    if k <= 1 {
        0
    } else if counts_as_climb(diffs[k - 1]) {
        k - 1
    } else {
        anchor_at(diffs, k - 1)
    }
}

/// The differences that count, in order.
pub open spec fn steps_of(diffs: Seq<Single>, k: int) -> Seq<Single>
    decreases k,
{
    if k <= 1 {
        seq![]
    } else {
        let rest = steps_of(diffs, k - 1);
        if counts_as_climb(diffs[k - 1]) {
            rest.push(diffs[k - 1])
        } else {
            rest
        }
    }
}

/// Each difference is that of its elevation to the one it is held against.
pub open spec fn diffs_by<F: Fn(Single, Single) -> Single>(
    elevs: Seq<Single>,
    diffs: Seq<Single>,
    diff: F,
) -> bool {
    &&& diffs.len() == elevs.len()
    &&& forall|k: int|
        1 <= k < elevs.len() ==> call_ensures(
            diff,
            (elevs[k], elevs[anchor_at(diffs, k)]),
            #[trigger] diffs[k],
        )
}

/// Lowest and highest elevation, and the climbs and descents that count.
pub struct Relief {
    pub min_elev_m: Option<Single>,
    pub max_elev_m: Option<Single>,
    pub steps: Vec<Single>,
}

/// Goes over the elevations of a profile with hysteresis: a change counts only
/// past the threshold, and from then on it is the new reference. `diff` takes one
/// elevation from another.
pub fn relief<F: Fn(Single, Single) -> Single>(elevs: &Vec<Option<Single>>, diff: &F) -> (r: Relief)
    requires
        forall|a: Single, b: Single| call_requires(*diff, (a, b)),
    ensures
        r.min_elev_m == lowest(present(elevs@)),
        r.max_elev_m == highest(present(elevs@)),
        exists|diffs: Seq<Single>| #[trigger]
            diffs_by(present(elevs@), diffs, *diff) && r.steps@ == steps_of(
                diffs,
                diffs.len() as int,
            ),
{
    let mut low: Option<Single> = None;
    let mut high: Option<Single> = None;
    let mut anchor: Option<Single> = None;
    let mut steps: Vec<Single> = Vec::new();
    let ghost mut diffs: Seq<Single> = seq![];
    let mut i: usize = 0;
    while i < elevs.len()
        invariant
            forall|a: Single, b: Single| call_requires(*diff, (a, b)),
            i <= elevs@.len(),
            low == lowest(present(elevs@.take(i as int))),
            high == highest(present(elevs@.take(i as int))),
            diffs_by(present(elevs@.take(i as int)), diffs, *diff),
            steps@ == steps_of(diffs, diffs.len() as int),
            anchor is None <==> diffs.len() == 0,
            anchor matches Some(a) ==> a == present(elevs@.take(i as int))[anchor_at(
                diffs,
                diffs.len() as int,
            )] && 0 <= anchor_at(diffs, diffs.len() as int) < diffs.len(),
        decreases elevs@.len() - i,
    {
        let ghost seen = elevs@.take(i + 1);
        assert(seen.drop_last() =~= elevs@.take(i as int));
        assert(seen.last() == elevs@[i as int]);
        let ghost before = present(elevs@.take(i as int));
        let ghost had = diffs;
        match elevs[i] {
            Some(s) => {
                assert(present(seen) == before.push(s));
                assert(present(seen).drop_last() =~= before);
                low = Some(
                    match low {
                        Some(m) => m.min(s),
                        None => s,
                    },
                );
                high = Some(
                    match high {
                        Some(m) => m.max(s),
                        None => s,
                    },
                );
                match anchor {
                    None => {
                        anchor = Some(s);
                        proof {
                            diffs = seq![s];
                            assert(steps_of(diffs, 1) =~= seq![]);
                        }
                    },
                    Some(a) => {
                        let d: Single = diff(s, a);
                        proof {
                            diffs = diffs.push(d);
                            lemma_prefix(had, d, had.len() as int);
                        }
                        let up = Single { bits: ASCENT_THRESHOLD_BITS };
                        if up.lt(d) || d.lt(Single { bits: DESCENT_THRESHOLD_BITS }) {
                            steps.push(d);
                            anchor = Some(s);
                        }
                        proof {
                            assert forall|k: int| 1 <= k < present(seen).len() implies call_ensures(
                                *diff,
                                (present(seen)[k], present(seen)[anchor_at(diffs, k)]),
                                #[trigger] diffs[k],
                            ) by {
                                lemma_prefix(had, d, k);
                                lemma_anchor(diffs, k);
                                if k < had.len() {
                                    assert(diffs[k] == had[k]);
                                    assert(present(seen)[k] == before[k]);
                                    assert(present(seen)[anchor_at(diffs, k)] == before[anchor_at(
                                        had,
                                        k,
                                    )]);
                                }
                            }
                            lemma_anchor(diffs, diffs.len() as int);
                            lemma_anchor(had, had.len() as int);
                        }
                    },
                }
            },
            None => {},
        }
        i = i + 1;
    }
    assert(elevs@.take(i as int) =~= elevs@);
    Relief { min_elev_m: low, max_elev_m: high, steps }
}

pub proof fn lemma_anchor(diffs: Seq<Single>, k: int)
    requires
        1 <= k,
    ensures
        0 <= anchor_at(diffs, k) < k,
    decreases k,
{
    if k > 1 {
        lemma_anchor(diffs, k - 1);
    }
}

proof fn lemma_prefix(diffs: Seq<Single>, d: Single, k: int)
    requires
        0 <= k <= diffs.len(),
    ensures
        anchor_at(diffs.push(d), k) == anchor_at(diffs, k),
        steps_of(diffs.push(d), k) == steps_of(diffs, k),
    decreases k,
{
    if k > 1 {
        lemma_prefix(diffs, d, k - 1);
    }
}

/// Elevations that stay within the threshold of the first one make no climb.
pub proof fn law_noise_is_no_climb(diffs: Seq<Single>, k: int)
    requires
        0 <= k <= diffs.len(),
        forall|i: int| 1 <= i < k ==> !counts_as_climb(#[trigger] diffs[i]),
    ensures
        steps_of(diffs, k).len() == 0,
        anchor_at(diffs, k) == 0,
    decreases k,
{
    if k > 1 {
        law_noise_is_no_climb(diffs, k - 1);
        assert(!counts_as_climb(diffs[k - 1]));
    }
}

// ---------------------------------------------------------------------------
// The track
// ---------------------------------------------------------------------------

/// The range of samples between two vertices, first and last, if both have one. A
/// leg between points that coincide has one sample for both.
pub open spec fn bound_of(vertex: Seq<usize>, a: usize, b: usize) -> Option<(usize, usize)> {
    if a < vertex.len() && b < vertex.len() && vertex[a as int] <= vertex[b as int] {
        Some((vertex[a as int], vertex[b as int]))
    } else {
        None
    }
}

/// The ranges of samples of the legs between the first `k` waypoints.
pub open spec fn bounds_to(vertex: Seq<usize>, wp: Seq<usize>, k: int) -> Seq<(usize, usize)>
    decreases k,
{
    if k <= 1 {
        seq![]
    } else {
        let rest = bounds_to(vertex, wp, k - 1);
        match bound_of(vertex, wp[k - 2], wp[k - 1]) {
            Some(b) => rest.push(b),
            None => rest,
        }
    }
}

/// A track.
pub struct Track {
    pub waypoints: Vec<Waypoint>,
    /// The line that is walked.
    pub path: Vec<LatLon>,
    /// Where each waypoint stands on the line.
    pub wp_vertex: Vec<usize>,
    pub profile: Vec<Sample>,
    /// The range of samples of each leg, first and last: one for each pair of
    /// waypoints.
    pub leg_bounds: Vec<(usize, usize)>,
    pub stats: TrackStats,
    pub legs: Vec<TrackStats>,
    pub dirty: bool,
}

impl Default for Track {
    fn default() -> (t: Self)
        ensures
            t.wf(),
            t.waypoints@.len() == 0,
            t.path@.len() == 0,
            t.wp_vertex@.len() == 0,
            t.profile@.len() == 0,
            t.leg_bounds@.len() == 0,
            t.stats == no_stats(),
            t.legs@.len() == 0,
            !t.dirty,
    {
        Track {
            waypoints: Vec::new(),
            path: Vec::new(),
            wp_vertex: Vec::new(),
            profile: Vec::new(),
            leg_bounds: Vec::new(),
            stats: TrackStats::default(),
            legs: Vec::new(),
            dirty: false,
        }
    }
}

impl Track {
    /// The legs lie on the profile.
    pub open spec fn wf(&self) -> bool {
        forall|k: int|
            0 <= k < self.leg_bounds@.len() ==> (#[trigger] self.leg_bounds@[k]).0
                <= self.leg_bounds@[k].1 < self.profile@.len()
    }

    pub fn push(&mut self, wp: Waypoint)
        ensures
            final(self).waypoints@ == old(self).waypoints@.push(wp),
            final(self).dirty,
            *final(self) == (Track {
                waypoints: final(self).waypoints,
                dirty: true,
                ..*old(self)
            }),
    {
        self.waypoints.push(wp);
        self.dirty = true;
    }

    /// The line that is walked.
    pub fn path(&self) -> (r: &Vec<LatLon>)
        ensures
            *r == self.path,
    {
        &self.path
    }

    /// The samples of the profile.
    pub fn profile(&self) -> (r: &Vec<Sample>)
        ensures
            *r == self.profile,
    {
        &self.profile
    }

    /// The figures of the whole track.
    pub fn stats(&self) -> (r: &TrackStats)
        ensures
            *r == self.stats,
    {
        &self.stats
    }

    /// The figures of each leg.
    pub fn legs(&self) -> (r: &Vec<TrackStats>)
        ensures
            *r == self.legs,
    {
        &self.legs
    }

    pub fn pop(&mut self)
        ensures
            old(self).waypoints@.len() > 0 ==> final(self).waypoints@
                == old(self).waypoints@.drop_last(),
            old(self).waypoints@.len() == 0 ==> final(self).waypoints@ == old(self).waypoints@,
            *final(self) == (Track {
                waypoints: final(self).waypoints,
                dirty: true,
                ..*old(self)
            }),
    {
        self.waypoints.pop();
        self.dirty = true;
    }

    pub fn clear(&mut self)
        ensures
            final(self).waypoints@.len() == 0,
            *final(self) == (Track {
                waypoints: final(self).waypoints,
                dirty: true,
                ..*old(self)
            }),
    {
        self.waypoints.clear();
        self.dirty = true;
    }

    /// The network has changed: a stretch may have become one to follow.
    pub fn invalidate(&mut self)
        ensures
            *final(self) == (Track { dirty: true, ..*old(self) }),
    {
        self.dirty = true;
    }

    /// The samples of one leg, none where there is no such leg.
    pub fn leg_profile(&self, leg: usize) -> (v: Vec<Sample>)
        requires
            self.wf(),
        ensures
            leg < self.leg_bounds@.len() ==> v@ == self.profile@.subrange(
                self.leg_bounds@[leg as int].0 as int,
                self.leg_bounds@[leg as int].1 + 1,
            ),
            leg >= self.leg_bounds@.len() ==> v@.len() == 0,
    {
        let mut out: Vec<Sample> = Vec::new();
        if leg >= self.leg_bounds.len() {
            return out;
        }
        let (a, b): (usize, usize) = self.leg_bounds[leg];
        assert(self.leg_bounds@[leg as int] == (a, b));
        let mut i: usize = a;
        let n: usize = self.profile.len();
        while i <= b
            invariant
                a <= i <= b + 1,
                b < n,
                n == self.profile@.len(),
                out@ == self.profile@.subrange(a as int, i as int),
            decreases b + 1 - i,
        {
            out.push(self.profile[i]);
            assert(out@ =~= self.profile@.subrange(a as int, i + 1));
            i = i + 1;
        }
        out
    }

    /// How many legs follow a trail.
    pub fn followed_legs(&self, net: &TrailNetwork) -> (n: usize)
        requires
            net.wf(),
            forall|k: int|
                0 <= k < self.waypoints@.len() ==> snap_fits(
                    net.list(),
                    #[trigger] self.waypoints@[k],
                ),
        ensures
            n == followed_to(net.list(), self.waypoints@, self.waypoints@.len() as int),
    {
        let mut n: usize = 0;
        let mut k: usize = 1;
        while k < self.waypoints.len()
            invariant
                net.wf(),
                forall|k: int|
                    0 <= k < self.waypoints@.len() ==> snap_fits(
                        net.list(),
                        #[trigger] self.waypoints@[k],
                    ),
                1 <= k,
                k <= self.waypoints@.len() || k == 1,
                n < k,
                n == followed_to(net.list(), self.waypoints@, k as int),
            decreases self.waypoints@.len() - k,
        {
            assert(snap_fits(net.list(), self.waypoints@[k - 1]));
            assert(snap_fits(net.list(), self.waypoints@[k as int]));
            if leg_geometry(net, &self.waypoints[k - 1], &self.waypoints[k]).is_some() {
                n = n + 1;
            }
            k = k + 1;
        }
        n
    }

    /// Lays the line anew: along the trail where a leg follows one, straight
    /// otherwise.
    pub fn rebuild_path(&mut self, net: &TrailNetwork)
        requires
            net.wf(),
            forall|k: int|
                0 <= k < old(self).waypoints@.len() ==> snap_fits(
                    net.list(),
                    #[trigger] old(self).waypoints@[k],
                ),
        ensures
            final(self).path@ == line_of(net.list(), old(self).waypoints@),
            final(self).wp_vertex@.len() == old(self).waypoints@.len(),
            forall|k: int|
                0 <= k < old(self).waypoints@.len() ==> #[trigger] final(self).wp_vertex@[k]
                    == vertices_of(net.list(), old(self).waypoints@)[k],
            *final(self) == (Track {
                path: final(self).path,
                wp_vertex: final(self).wp_vertex,
                ..*old(self)
            }),
    {
        let ghost was = *self;
        let ghost ways = net.list();
        let ghost wps = self.waypoints@;
        self.path.clear();
        self.wp_vertex.clear();
        if self.waypoints.len() == 0 {
            return ;
        }
        let first: LatLon = self.waypoints[0].pos;
        self.path.push(first);
        self.wp_vertex.push(0);
        assert(self.path@ =~= line_to(ways, wps, 0));
        let mut k: usize = 1;
        while k < self.waypoints.len()
            invariant
                net.wf(),
                ways == net.list(),
                wps == was.waypoints@,
                forall|k: int| 0 <= k < wps.len() ==> snap_fits(ways, #[trigger] wps[k]),
                1 <= k <= wps.len(),
                *self == (Track { path: self.path, wp_vertex: self.wp_vertex, ..was }),
                self.path@ == line_to(ways, wps, k - 1),
                self.path@.len() >= 1,
                self.wp_vertex@.len() == k,
                forall|j: int|
                    0 <= j < k ==> #[trigger] self.wp_vertex@[j] == line_to(ways, wps, j).len() - 1,
            decreases wps.len() - k,
        {
            assert(snap_fits(ways, wps[k - 1]));
            assert(snap_fits(ways, wps[k as int]));
            let ghost had = self.path@;
            match leg_geometry(net, &self.waypoints[k - 1], &self.waypoints[k]) {
                Some(geom) => {
                    if geom.len() == 0 {
                        assert(self.path@ =~= had + behind_first(geom@));
                    } else {
                        let mut i: usize = 1;
                        while i < geom.len()
                            invariant
                                1 <= i <= geom@.len(),
                                *self == (Track {
                                    path: self.path,
                                    wp_vertex: self.wp_vertex,
                                    ..was
                                }),
                                self.path@ == had + geom@.subrange(1, i as int),
                                self.wp_vertex@.len() == k,
                                forall|j: int|
                                    0 <= j < k ==> #[trigger] self.wp_vertex@[j] == line_to(
                                        ways,
                                        wps,
                                        j,
                                    ).len() - 1,
                            decreases geom@.len() - i,
                        {
                            self.path.push(geom[i]);
                            assert(self.path@ =~= had + geom@.subrange(1, i + 1));
                            i = i + 1;
                        }
                        assert(geom@.subrange(1, i as int) =~= geom@.skip(1));
                    }
                },
                None => {
                    let p: LatLon = self.waypoints[k].pos;
                    self.path.push(p);
                    assert(self.path@ =~= had + seq![p]);
                },
            }
            let last: usize = self.path.len() - 1;
            self.wp_vertex.push(last);
            k = k + 1;
        }
    }

    /// Whether the profile is to be computed: after a change, and as long as
    /// elevations are missing. Lays the line anew after a change.
    pub fn begin_refresh(&mut self, net: &TrailNetwork) -> (go: bool)
        requires
            net.wf(),
            forall|k: int|
                0 <= k < old(self).waypoints@.len() ==> snap_fits(
                    net.list(),
                    #[trigger] old(self).waypoints@[k],
                ),
        ensures
            go == (old(self).dirty || !old(self).stats.elevation_complete),
            !final(self).dirty,
            old(self).dirty ==> final(self).path@ == line_of(net.list(), old(self).waypoints@)
                && final(self).wp_vertex@.len() == old(self).waypoints@.len() && forall|k: int|
                0 <= k < old(self).waypoints@.len() ==> #[trigger] final(self).wp_vertex@[k]
                    == vertices_of(net.list(), old(self).waypoints@)[k],
            *final(self) == (Track {
                path: final(self).path,
                wp_vertex: final(self).wp_vertex,
                dirty: false,
                ..*old(self)
            }),
            !old(self).dirty ==> *final(self) == *old(self),
    {
        if !self.dirty && self.stats.elevation_complete {
            return false;
        }
        if self.dirty {
            self.rebuild_path(net);
        }
        self.dirty = false;
        true
    }

    /// Takes a profile, and cuts it into legs at the waypoints.
    pub fn lay_profile(&mut self, profile: Vec<Sample>, vertex: &Vec<usize>)
        requires
            forall|k: int|
                0 <= k < vertex@.len() ==> #[trigger] vertex@[k] < profile@.len(),
        ensures
            final(self).wf(),
            final(self).profile@ == profile@,
            final(self).leg_bounds@ == bounds_to(
                vertex@,
                old(self).wp_vertex@,
                old(self).wp_vertex@.len() as int,
            ),
            *final(self) == (Track {
                profile: final(self).profile,
                leg_bounds: final(self).leg_bounds,
                ..*old(self)
            }),
    {
        let mut bounds: Vec<(usize, usize)> = Vec::new();
        let mut k: usize = 1;
        while k < self.wp_vertex.len()
            invariant
                *self == *old(self),
                1 <= k,
                k <= self.wp_vertex@.len() || k == 1,
                bounds@ == bounds_to(vertex@, self.wp_vertex@, k as int),
                forall|j: int|
                    0 <= j < vertex@.len() ==> #[trigger] vertex@[j] < profile@.len(),
                forall|j: int|
                    0 <= j < bounds@.len() ==> (#[trigger] bounds@[j]).0 <= bounds@[j].1
                        < profile@.len(),
            decreases self.wp_vertex@.len() - k,
        {
            let a: usize = self.wp_vertex[k - 1];
            let b: usize = self.wp_vertex[k];
            if a < vertex.len() && b < vertex.len() {
                let from: usize = vertex[a];
                let to: usize = vertex[b];
                if from <= to {
                    assert(vertex@[b as int] < profile@.len());
                    bounds.push((from, to));
                }
            }
            k = k + 1;
        }
        self.profile = profile;
        self.leg_bounds = bounds;
    }

    /// Takes the elevations of the samples, and notes whether all are there.
    pub fn fill_elevations(&mut self, elevs: &Vec<Option<Single>>)
        requires
            elevs@.len() == old(self).profile@.len(),
        ensures
            final(self).profile@ == Seq::new(
                old(self).profile@.len(),
                |i: int| Sample { elev_m: elevs@[i], ..old(self).profile@[i] },
            ),
            final(self).stats.elevation_complete == (forall|i: int|
                0 <= i < elevs@.len() ==> #[trigger] elevs@[i] is Some),
            *final(self) == (Track {
                profile: final(self).profile,
                stats: TrackStats {
                    elevation_complete: final(self).stats.elevation_complete,
                    ..old(self).stats
                },
                ..*old(self)
            }),
    {
        let ghost was = *self;
        let mut complete: bool = true;
        let mut i: usize = 0;
        while i < elevs.len()
            invariant
                i <= elevs@.len(),
                elevs@.len() == was.profile@.len(),
                *self == (Track { profile: self.profile, ..was }),
                self.profile@.len() == was.profile@.len(),
                forall|k: int|
                    0 <= k < i ==> #[trigger] self.profile@[k] == (Sample {
                        elev_m: elevs@[k],
                        ..was.profile@[k]
                    }),
                forall|k: int|
                    i <= k < was.profile@.len() ==> #[trigger] self.profile@[k] == was.profile@[k],
                complete == (forall|k: int| 0 <= k < i ==> #[trigger] elevs@[k] is Some),
            decreases elevs@.len() - i,
        {
            let e: Option<Single> = elevs[i];
            let s: Sample = self.profile[i];
            self.profile[i] = Sample { elev_m: e, ..s };
            if e.is_none() {
                assert(elevs@[i as int] is None);
                complete = false;
            }
            i = i + 1;
        }
        assert(self.profile@ =~= Seq::new(
            was.profile@.len(),
            |i: int| Sample { elev_m: elevs@[i], ..was.profile@[i] },
        ));
        let s: TrackStats = self.stats;
        self.stats = TrackStats { elevation_complete: complete, ..s };
    }

    /// Computes the figures anew, of the whole and of each leg, and keeps whether
    /// the elevations are complete.
    pub fn recompute_time<
        M: Fn(Real, Real) -> Real,
        D: Fn(Single, Single) -> Single,
        U: Fn(Real, Single) -> Real,
        A: Fn(Real, Real) -> Real,
        R: Fn(Real, Real) -> Real,
        H: Fn(Real, Option<(Single, Single)>) -> Real,
        L: Fn(Real) -> Real,
    >(&mut self, model: SpeedModel, pace: &Pace<M, D, U, A, R, H, L>)
        requires
            old(self).wf(),
            pace.wf(),
        ensures
            pace.figures(
                old(self).profile@,
                model,
                old(self).stats.elevation_complete,
                final(self).stats,
            ),
            final(self).legs@.len() == old(self).leg_bounds@.len(),
            forall|k: int|
                0 <= k < old(self).leg_bounds@.len() ==> pace.figures(
                    old(self).profile@.subrange(
                        old(self).leg_bounds@[k].0 as int,
                        old(self).leg_bounds@[k].1 + 1,
                    ),
                    model,
                    old(self).stats.elevation_complete,
                    #[trigger] final(self).legs@[k],
                ),
            *final(self) == (Track {
                stats: final(self).stats,
                legs: final(self).legs,
                ..*old(self)
            }),
    {
        let complete: bool = self.stats.elevation_complete;
        let stats: TrackStats = compute_stats(&self.profile, model, complete, pace);
        let mut legs: Vec<TrackStats> = Vec::new();
        let mut k: usize = 0;
        while k < self.leg_bounds.len()
            invariant
                *self == *old(self),
                self.wf(),
                pace.wf(),
                k <= self.leg_bounds@.len(),
                legs@.len() == k,
                complete == self.stats.elevation_complete,
                forall|j: int|
                    0 <= j < k ==> pace.figures(
                        self.profile@.subrange(
                            self.leg_bounds@[j].0 as int,
                            self.leg_bounds@[j].1 + 1,
                        ),
                        model,
                        complete,
                        #[trigger] legs@[j],
                    ),
            decreases self.leg_bounds@.len() - k,
        {
            let samples: Vec<Sample> = self.leg_profile(k);
            legs.push(compute_stats(&samples, model, complete, pace));
            k = k + 1;
        }
        self.stats = stats;
        self.legs = legs;
    }
}

/// How many of the legs up to a waypoint follow a trail.
pub open spec fn followed_to(ways: Seq<Way>, waypoints: Seq<Waypoint>, k: int) -> nat
    decreases k,
{
    if k <= 1 {
        0
    } else {
        followed_to(ways, waypoints, k - 1) + if leg_points(
            ways,
            waypoints[k - 2],
            waypoints[k - 1],
        ) is Some {
            1nat
        } else {
            0nat
        }
    }
}

/// An hour text: hours, and minutes with two digits. A dash where there is no
/// duration.
pub open spec fn duration_text(minutes: Option<u64>) -> Seq<char> {
    match minutes {
        Some(m) => text::decimal((m / 60) as nat) + " h "@ + seq![
            text::digit((m % 60 / 10) as nat),
            text::digit((m % 60 % 10) as nat),
        ],
        None => "—"@,
    }
}

/// A duration in hours and minutes. A dash where there is none.
pub fn format_duration(minutes: Option<u64>) -> (s: String)
    ensures
        s@ == duration_text(minutes),
{
    match minutes {
        Some(m) => {
            let mut s = String::new();
            put_decimal(&mut s, m / 60);
            s.append(" h ");
            s.push((48 + (m % 60 / 10) as u8) as char);
            s.push((48 + (m % 60 % 10) as u8) as char);
            assert(s@ =~= duration_text(minutes));
            s
        },
        None => "—".to_owned(),
    }
}

/// There is one leg for each pair of waypoints, however near they are: its samples
/// run from that on the first to that on the second. `vertex` gives the sample on
/// each vertex of the line, and `wp` the vertex of each waypoint.
pub proof fn law_one_leg_per_pair(
    ways: Seq<Way>,
    waypoints: Seq<Waypoint>,
    counts: Seq<usize>,
    vertex: Seq<usize>,
    wp: Seq<usize>,
)
    requires
        wp.len() == waypoints.len(),
        forall|k: int|
            0 <= k < wp.len() ==> #[trigger] wp[k] == vertices_of(ways, waypoints)[k],
        vertex.len() == line_of(ways, waypoints).len(),
        forall|k: int| 0 <= k < vertex.len() ==> #[trigger] vertex[k] == count_to(counts, k),
    ensures
        waypoints.len() >= 1 ==> bounds_to(vertex, wp, wp.len() as int).len() == waypoints.len() - 1,
        forall|k: int|
            1 <= k < waypoints.len() ==> #[trigger] bounds_to(vertex, wp, wp.len() as int)[k - 1]
                == (vertex[wp[k - 1] as int], vertex[wp[k] as int]),
{
    if waypoints.len() > 0 {
        lemma_legs_to(ways, waypoints, counts, vertex, wp, wp.len() as int);
    }
}

proof fn lemma_legs_to(
    ways: Seq<Way>,
    waypoints: Seq<Waypoint>,
    counts: Seq<usize>,
    vertex: Seq<usize>,
    wp: Seq<usize>,
    n: int,
)
    requires
        1 <= n <= wp.len(),
        wp.len() == waypoints.len(),
        forall|k: int|
            0 <= k < wp.len() ==> #[trigger] wp[k] == vertices_of(ways, waypoints)[k],
        vertex.len() == line_of(ways, waypoints).len(),
        forall|k: int| 0 <= k < vertex.len() ==> #[trigger] vertex[k] == count_to(counts, k),
    ensures
        bounds_to(vertex, wp, n).len() == n - 1,
        forall|k: int|
            1 <= k < n ==> #[trigger] bounds_to(vertex, wp, n)[k - 1] == (
                vertex[wp[k - 1] as int],
                vertex[wp[k] as int],
            ),
    decreases n,
{
    if n > 1 {
        lemma_legs_to(ways, waypoints, counts, vertex, wp, n - 1);
        let last = waypoints.len() - 1;
        lemma_line_grows(ways, waypoints, n - 2, n - 1);
        lemma_line_grows(ways, waypoints, n - 1, last);
        lemma_line_starts(ways, waypoints, n - 2);
        let a = wp[n - 2];
        let b = wp[n - 1];
        assert(a == vertices_of(ways, waypoints)[n - 2]);
        assert(b == vertices_of(ways, waypoints)[n - 1]);
        lemma_count_grows(counts, a as int, b as int);
        assert(vertex[a as int] == count_to(counts, a as int));
        assert(vertex[b as int] == count_to(counts, b as int));
        let rest = bounds_to(vertex, wp, n - 1);
        let all = bounds_to(vertex, wp, n);
        assert(all == rest.push((vertex[a as int], vertex[b as int])));
        assert forall|k: int| 1 <= k < n implies #[trigger] all[k - 1] == (
            vertex[wp[k - 1] as int],
            vertex[wp[k] as int],
        ) by {
            if k < n - 1 {
                assert(all[k - 1] == rest[k - 1]);
            }
        }
    }
}

proof fn lemma_line_starts(ways: Seq<Way>, waypoints: Seq<Waypoint>, k: int)
    ensures
        line_to(ways, waypoints, k).len() >= 1,
    decreases k,
{
    if k > 0 {
        lemma_line_starts(ways, waypoints, k - 1);
    }
}

/// Legs meet: one starts at the sample where the one before it ends, and no
/// sample lies between them.
pub proof fn law_legs_meet(vertex: Seq<usize>, wp: Seq<usize>, k: int)
    requires
        0 <= k,
        k + 2 < wp.len(),
    ensures
        match (bound_of(vertex, wp[k], wp[k + 1]), bound_of(vertex, wp[k + 1], wp[k + 2])) {
            (Some(a), Some(b)) => a.1 == b.0,
            _ => true,
        },
{
}

/// Every waypoint stands on the line, at its own vertex, where the geometry of
/// its leg ends at it.
pub proof fn law_waypoints_stand_on_the_line(ways: Seq<Way>, waypoints: Seq<Waypoint>, k: int)
    requires
        0 <= k < waypoints.len(),
        forall|j: int|
            1 <= j < waypoints.len() ==> (leg_points(
                ways,
                #[trigger] waypoints[j - 1],
                waypoints[j],
            ) matches Some(points) ==> points.len() >= 2 && points.last() == waypoints[j].pos),
    ensures
        0 <= vertices_of(ways, waypoints)[k] < line_of(ways, waypoints).len(),
        line_of(ways, waypoints)[vertices_of(ways, waypoints)[k]] == waypoints[k].pos,
        k > 0 ==> vertices_of(ways, waypoints)[k - 1] < vertices_of(ways, waypoints)[k],
{
    lemma_line_grows(ways, waypoints, k, waypoints.len() - 1);
    lemma_line_end(ways, waypoints, k);
    if k > 0 {
        assert(leg_points(ways, waypoints[k - 1], waypoints[k]) matches Some(points)
            ==> points.len() >= 2);
    }
}

proof fn lemma_line_end(ways: Seq<Way>, waypoints: Seq<Waypoint>, k: int)
    requires
        0 <= k < waypoints.len(),
        forall|j: int|
            1 <= j < waypoints.len() ==> (leg_points(
                ways,
                #[trigger] waypoints[j - 1],
                waypoints[j],
            ) matches Some(points) ==> points.len() >= 2 && points.last() == waypoints[j].pos),
    ensures
        line_to(ways, waypoints, k).len() > 0,
        line_to(ways, waypoints, k).last() == waypoints[k].pos,
    decreases k,
{
    if k > 0 {
        lemma_line_end(ways, waypoints, k - 1);
        assert(leg_points(ways, waypoints[k - 1], waypoints[k]) matches Some(points)
            ==> points.len() >= 2 && points.last() == waypoints[k].pos);
    }
}

proof fn lemma_line_grows(ways: Seq<Way>, waypoints: Seq<Waypoint>, a: int, b: int)
    requires
        0 <= a <= b,
    ensures
        line_to(ways, waypoints, a).len() <= line_to(ways, waypoints, b).len(),
        line_to(ways, waypoints, b).take(line_to(ways, waypoints, a).len() as int) == line_to(
            ways,
            waypoints,
            a,
        ),
    decreases b - a,
{
    if a < b {
        lemma_line_grows(ways, waypoints, a, b - 1);
        let x = line_to(ways, waypoints, a);
        let y = line_to(ways, waypoints, b - 1);
        let z = line_to(ways, waypoints, b);
        assert(z.take(y.len() as int) =~= y);
        assert(z.take(x.len() as int) =~= y.take(x.len() as int));
    } else {
        let x = line_to(ways, waypoints, a);
        assert(x.take(x.len() as int) =~= x);
    }
}

/// The lowest of some elevations is one of them, and none is lower. The highest is
/// one of them, and none is higher.
pub proof fn law_lowest_and_highest(elevs: Seq<Single>)
    requires
        elevs.len() > 0,
    ensures
        lowest(elevs) is Some,
        highest(elevs) is Some,
        (forall|k: int| 0 <= k < elevs.len() ==> !(#[trigger] elevs[k]).nan()) ==> {
            &&& elevs.contains(lowest(elevs)->0)
            &&& elevs.contains(highest(elevs)->0)
            &&& forall|k: int|
                0 <= k < elevs.len() ==> lowest(elevs)->0.at_most(#[trigger] elevs[k])
            &&& forall|k: int|
                0 <= k < elevs.len() ==> (#[trigger] elevs[k]).at_most(highest(elevs)->0)
        },
    decreases elevs.len(),
{
    let less = elevs.drop_last();
    assert(elevs[elevs.len() - 1] == elevs.last());
    if less.len() > 0 {
        law_lowest_and_highest(less);
        assert forall|k: int| 0 <= k < less.len() implies #[trigger] less[k] == elevs[k] by {}
        if forall|k: int| 0 <= k < elevs.len() ==> !(#[trigger] elevs[k]).nan() {
            assert forall|k: int| 0 <= k < less.len() implies !(#[trigger] less[k]).nan() by {
                assert(less[k] == elevs[k]);
            }
            let low = lowest(less)->0;
            let high = highest(less)->0;
            let i = less.index_of(low);
            let j = less.index_of(high);
            assert(elevs[i] == low);
            assert(elevs[j] == high);
            assert forall|k: int| 0 <= k < elevs.len() implies lowest(elevs)->0.at_most(
                #[trigger] elevs[k],
            ) && elevs[k].at_most(highest(elevs)->0) by {
                if k < less.len() {
                    assert(low.at_most(less[k]));
                    assert(less[k].at_most(high));
                }
            }
        }
    }
}

/// The elevations that are known are all there, in their order, and nothing else.
pub proof fn law_known_elevations_stay_in_order(elevs: Seq<Option<Single>>, more: Option<Single>)
    ensures
        present(elevs.push(more)) == match more {
            Some(e) => present(elevs).push(e),
            None => present(elevs),
        },
        present(Seq::<Option<Single>>::empty()).len() == 0,
        forall|e: Single| present(elevs).contains(e) <==> #[trigger] elevs.contains(Some(e)),
    decreases elevs.len(),
{
    assert(elevs.push(more).drop_last() =~= elevs);
    if elevs.len() > 0 {
        let less = elevs.drop_last();
        law_known_elevations_stay_in_order(less, elevs.last());
        assert(less.push(elevs.last()) =~= elevs);
        assert forall|e: Single| present(elevs).contains(e) <==> #[trigger] elevs.contains(
            Some(e),
        ) by {
            let rest = present(less);
            assert(rest.contains(e) <==> less.contains(Some(e)));
            if less.contains(Some(e)) {
                assert(elevs[less.index_of(Some(e))] == Some(e));
            }
            if elevs.contains(Some(e)) && elevs.last() != Some(e) {
                assert(less[elevs.index_of(Some(e))] == Some(e));
            }
            assert(elevs[elevs.len() - 1] == elevs.last());
            if let Some(x) = elevs.last() {
                let all = rest.push(x);
                assert(all[rest.len() as int] == x);
                if rest.contains(e) {
                    assert(all[rest.index_of(e)] == e);
                }
                if all.contains(e) && x != e {
                    assert(rest[all.index_of(e)] == e);
                }
            }
        }
    }
}

/// What the line does between two waypoints. It goes over the points that were
/// routed, where the second waypoint came with some; else along the way, where both
/// lie on one that is there; else straight to the second.
pub proof fn law_a_leg_of_the_line(ways: Seq<Way>, waypoints: Seq<Waypoint>, k: int)
    requires
        1 <= k < waypoints.len(),
        snap_fits(ways, waypoints[k - 1]),
        snap_fits(ways, waypoints[k]),
    ensures
        ({
            let line = line_of(ways, waypoints);
            let a = vertices_of(ways, waypoints)[k - 1];
            let b = vertices_of(ways, waypoints)[k];
            let (from, to) = (waypoints[k - 1], waypoints[k]);
            &&& 0 <= a <= b < line.len()
            &&& line[0] == waypoints[0].pos
            &&& to.via matches Some(via) ==> (via@.len() > 0 ==> line.subrange(a + 1, b + 1)
                == via@.skip(1))
            &&& to.via is None ==> match (from.snap, to.snap) {
                (Some(s), Some(t)) => match network::place_of(ways, s.way_id) {
                    Some(w) => if s.way_id == t.way_id {
                        line.subrange(a + 1, b + 1) == network::followed(
                            ways[w].points@,
                            s,
                            t,
                        ).skip(1)
                    } else {
                        line.subrange(a + 1, b + 1) == seq![to.pos]
                    },
                    None => line.subrange(a + 1, b + 1) == seq![to.pos],
                },
                _ => line.subrange(a + 1, b + 1) == seq![to.pos],
            }
        }),
{
    let line = line_of(ways, waypoints);
    let last = waypoints.len() - 1;
    let before = line_to(ways, waypoints, k - 1);
    let after = line_to(ways, waypoints, k);
    lemma_line_grows(ways, waypoints, k - 1, k);
    lemma_line_grows(ways, waypoints, k, last);
    lemma_line_grows(ways, waypoints, 0, last);
    lemma_line_starts(ways, waypoints, k - 1);
    assert(line_to(ways, waypoints, 0) =~= seq![waypoints[0].pos]);
    assert(line[0] == line.take(1)[0]);
    let a = before.len() - 1;
    let b = after.len() - 1;
    assert(line.subrange(a + 1, b + 1) =~= line.take(b + 1).skip(a + 1));
    let leg = match leg_points(ways, waypoints[k - 1], waypoints[k]) {
        Some(points) => behind_first(points),
        None => seq![waypoints[k].pos],
    };
    assert(after.skip(a + 1) =~= leg);
    if waypoints[k].via is None {
        if let (Some(s), Some(t)) = (waypoints[k - 1].snap, waypoints[k].snap) {
            if let Some(w) = network::place_of(ways, s.way_id) {
                if s.way_id == t.way_id {
                    network::law_following_runs_along_the_way(ways[w].points@, s, t, 0);
                }
            }
        }
    }
}

/// A leg counts as one on a trail where it came with points or runs along a way that
/// is there.
pub proof fn law_legs_on_trails_are_counted(ways: Seq<Way>, waypoints: Seq<Waypoint>, k: int)
    requires
        1 <= k < waypoints.len(),
    ensures
        followed_to(ways, waypoints, 1) == 0,
        followed_to(ways, waypoints, k + 1) == followed_to(ways, waypoints, k) + if waypoints[k].via is Some
            || (waypoints[k - 1].snap matches Some(s) && waypoints[k].snap matches Some(t) && s.way_id
            == t.way_id && network::place_of(ways, s.way_id) is Some) {
            1nat
        } else {
            0nat
        },
{
}

/// A duration reads as its whole hours and the minutes left, fewer than sixty and
/// in two digits.
pub proof fn law_durations_read_as_hours_and_minutes(m: u64)
    ensures
        ({
            let t = duration_text(Some(m));
            let hours = text::reading(t.take(t.len() - 5));
            let minutes = text::reading(t.skip(t.len() - 2));
            &&& t.len() >= 6
            &&& t.subrange(t.len() - 5, t.len() - 2) == seq![' ', 'h', ' ']
            &&& 60 * hours + minutes == m
            &&& 0 <= minutes < 60
        }),
{
    let t = duration_text(Some(m));
    reveal_strlit(" h ");
    let front = text::decimal((m / 60) as nat);
    text::law_decimals_read_back((m / 60) as nat);
    let a = (m % 60 / 10) as nat;
    let b = (m % 60 % 10) as nat;
    assert(t.take(t.len() - 5) =~= front);
    assert(t.subrange(t.len() - 5, t.len() - 2) =~= seq![' ', 'h', ' ']);
    let none = Seq::<char>::empty();
    text::lemma_reading_goes_on(none, a);
    text::lemma_reading_goes_on(none.push(text::digit(a)), b);
    assert(t.skip(t.len() - 2) =~= none.push(text::digit(a)).push(text::digit(b)));
    assert(text::reading(none) == 0);
    assert(m == 60 * (m / 60) + m % 60);
    assert(m % 60 == 10 * (m % 60 / 10) + m % 60 % 10);
}

/// The sample on a vertex is as far along the profile as the segments up to it have
/// samples: each segment adds its own to those before.
pub proof fn law_segments_add_their_samples(counts: Seq<usize>, k: int)
    requires
        0 <= k < counts.len(),
    ensures
        count_to(counts, 0) == 0,
        count_to(counts, k + 1) - count_to(counts, k) == counts[k],
{
}

} // verus!
