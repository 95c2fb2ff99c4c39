//! Loading trails on its own: the basin around the last point, and what is in
//! view while there is none.
use vstd::prelude::*;

use crate::geo::LatLon;
use crate::number::Real;
use crate::text;
use crate::text::put_decimal;
use crate::trails::store;
use crate::trails::store::{StoreState, TrailStore};
use crate::trails::ZoneKey;

verus! {

/// Below this zoom the network is not drawn: thousands of lines would run into
/// one smear.
pub const TRAILS_MIN_ZOOM: u8 = 12;

/// Below this zoom trails are not loaded on their own. A wide view spans hundreds
/// of zones of a public service.
pub const AUTO_TRAILS_MIN_ZOOM: u8 = 13;

/// Most zones that one view asks for at once.
pub const MAX_VISIBLE_ZONES: usize = 12;

/// New zones that a basin asks for at a time.
pub const BASIN_STEP: usize = 2;

/// Most zones that one basin ever asks for.
pub const MAX_BASIN_ZONES: usize = 16;

/// Most zones that are asked for at once for a whole area.
pub const MAX_AREA_ZONES: usize = 9;

/// Why nothing is loaded on its own, if nothing is.
pub open spec fn auto_hint(wanted: bool, placed: bool, zoom: u8) -> Option<Seq<char>> {
    if wanted && !placed && zoom < AUTO_TRAILS_MIN_ZOOM {
        Some("zoom in to z13 to load trails automatically"@)
    } else {
        None
    }
}

/// Why nothing is loaded on its own, if nothing is. Once a point is placed the
/// basin drives the loading, and the zoom gates nothing any more.
pub fn auto_trails_hint(wanted: bool, placed: bool, zoom: u8) -> (hint: Option<&'static str>)
    ensures
        match hint {
            Some(s) => auto_hint(wanted, placed, zoom) == Some(s@),
            None => auto_hint(wanted, placed, zoom) is None,
        },
{
    if !wanted || placed {
        return None;
    }
    if zoom < AUTO_TRAILS_MIN_ZOOM {
        Some("zoom in to z13 to load trails automatically")
    } else {
        None
    }
}

/// What is loaded on its own.
#[derive(Clone, Copy, Debug, PartialEq, Eq, Structural)]
pub enum AutoLoad {
    Nothing,
    /// The basin around the last point.
    Around(LatLon),
    /// What is in view.
    View,
}

/// Decides what is loaded on its own. The last point is the anchor, not the view:
/// what counts is the network within reach from where one stands. Nothing is
/// loaded while the view moves.
pub fn auto_load(wanted: bool, map_known: bool, settled: bool, last: Option<LatLon>) -> (
    what: AutoLoad)
    ensures
        what == if !wanted || !map_known || !settled {
            AutoLoad::Nothing
        } else {
            match last {
                Some(anchor) => AutoLoad::Around(anchor),
                None => AutoLoad::View,
            }
        },
{
    if !wanted || !map_known || !settled {
        return AutoLoad::Nothing;
    }
    match last {
        Some(anchor) => AutoLoad::Around(anchor),
        None => AutoLoad::View,
    }
}

/// A centre zone and a zoom.
#[derive(Clone, Copy, Debug, PartialEq, Eq, Structural)]
pub struct ScanKey {
    pub zone: ZoneKey,
    pub zoom: u8,
}

/// The view that was scanned last.
#[derive(Clone, Copy, Debug)]
pub struct ViewScan {
    pub last: Option<ScanKey>,
}

impl ViewScan {
    pub fn new() -> (s: Self)
        ensures
            s.last is None,
    {
        ViewScan { last: None }
    }

    /// Whether the view is to be scanned: it is close enough, and its centre lies
    /// in another zone or at another zoom than last time. A pan inside one zone
    /// cannot change the answer.
    pub fn due(&mut self, zone: ZoneKey, zoom: u8) -> (b: bool)
        ensures
            b == (zoom >= AUTO_TRAILS_MIN_ZOOM && old(self).last != Some(ScanKey { zone, zoom })),
            final(self).last == if b {
                Some(ScanKey { zone, zoom })
            } else {
                old(self).last
            },
    {
        if zoom < AUTO_TRAILS_MIN_ZOOM {
            return false;
        }
        let key = ScanKey { zone, zoom };
        if let Some(last) = self.last {
            if last == key {
                return false;
            }
        }
        self.last = Some(key);
        true
    }
}

// ---------------------------------------------------------------------------
// The basin
// ---------------------------------------------------------------------------

/// How far the trails around the last point have been loaded.
#[derive(Clone, Copy, Debug)]
pub struct Basin {
    pub anchor: LatLon,
    /// Zones that were asked for.
    pub asked: usize,
    /// Zones that the radius covers, and how many of them are in memory.
    pub zones: usize,
    pub loaded: usize,
    pub radius_m: Real,
    /// How far the isochrone reached when zones were last asked for.
    pub reach_at_last_ask: Real,
    /// The isochrone does not grow any more, or everything in the radius is
    /// loaded.
    pub complete: bool,
}

/// A basin before anything was asked for.
pub open spec fn fresh(anchor: LatLon) -> Basin {
    Basin {
        anchor,
        asked: 0,
        zones: 0,
        loaded: 0,
        radius_m: Real { bits: 0 },
        reach_at_last_ask: Real { bits: 0 },
        complete: false,
    }
}

/// The basin of an anchor: a new anchor starts over.
pub open spec fn anchored(basin: Option<Basin>, anchor: LatLon) -> Basin {
    match basin {
        Some(b) => if b.anchor.level_with(anchor) {
            b
        } else {
            fresh(anchor)
        },
        None => fresh(anchor),
    }
}

/// Nothing is decided: the basin is done, it has asked for all it may, or zones
/// are still to come and have to land before it is known whether they helped.
pub open spec fn rests(b: Basin, s: StoreState) -> bool {
    b.complete || b.asked >= MAX_BASIN_ZONES || s.waiting()
}

/// How many zones may be asked for next.
pub open spec fn next_step(b: Basin) -> nat {
    if MAX_BASIN_ZONES - b.asked < BASIN_STEP {
        (MAX_BASIN_ZONES - b.asked) as nat
    } else {
        BASIN_STEP as nat
    }
}

/// A basin measured anew, and then grown. It is complete where the last zones did
/// not let the isochrone reach further than `limit`, and where nothing is left to
/// ask for.
pub open spec fn grown(
    b: Basin,
    s: StoreState,
    reach: Real,
    limit: Real,
    radius: Real,
    keys: Seq<ZoneKey>,
    now_ns: u64,
) -> (Basin, StoreState) {
    let measured = Basin {
        radius_m: radius,
        zones: keys.len() as usize,
        loaded: store::loaded_among(s.loaded, keys) as usize,
        ..b
    };
    if b.asked > 0 && reach.at_most(limit) {
        (Basin { complete: true, ..measured }, s)
    } else {
        let enough = s.until_enough(keys, next_step(b), now_ns);
        let asked = s.asked_of(enough, now_ns);
        let after = s.all_ensured(enough, now_ns);
        if asked == 0 {
            (Basin { reach_at_last_ask: reach, complete: true, ..measured }, after)
        } else {
            (
                Basin {
                    reach_at_last_ask: reach,
                    asked: (b.asked + asked) as usize,
                    ..measured
                },
                after,
            )
        }
    }
}

impl Basin {
    pub fn new(anchor: LatLon) -> (b: Self)
        ensures
            b == fresh(anchor),
    {
        Basin {
            anchor,
            asked: 0,
            zones: 0,
            loaded: 0,
            radius_m: Real { bits: 0 },
            reach_at_last_ask: Real { bits: 0 },
            complete: false,
        }
    }

    /// What is said of the basin.
    pub open spec fn words(self, radius_km: Seq<char>) -> Seq<char> {
        "basin "@ + text::decimal(self.loaded as nat) + " zones · "@ + radius_km
            + " km around the last point"@ + if self.complete {
            ""@
        } else {
            " · growing"@
        }
    }

    /// What to say of the basin, and whether it is still growing: an isochrone on
    /// a part of the network is misleading, not only incomplete. The radius comes
    /// as a text, in kilometres.
    pub fn status(&self, radius_km: &str) -> (r: (String, bool))
        ensures
            r.0@ == self.words(radius_km@),
            r.1 == !self.complete,
    {
        let mut s = "basin ".to_owned();
        put_decimal(&mut s, self.loaded as u64);
        s.append(" zones · ");
        s.append(radius_km);
        s.append(" km around the last point");
        if self.complete {
            s.append("");
        } else {
            s.append(" · growing");
        }
        (s, !self.complete)
    }
}

/// A basin grew, or it was left alone.
pub open spec fn basin_step<A: Fn(LatLon, Real) -> (Real, Vec<ZoneKey>), L: Fn(Real) -> Real>(
    b: Basin,
    s: StoreState,
    reach: Real,
    area: A,
    a_metre_on: L,
    now_ns: u64,
    after: (Basin, StoreState),
) -> bool {
    if rests(b, s) {
        after == (b, s)
    } else {
        exists|radius: Real, keys: Vec<ZoneKey>, limit: Real|
            call_ensures(area, (b.anchor, reach), (radius, keys)) && call_ensures(
                a_metre_on,
                (b.reach_at_last_ask,),
                limit,
            ) && after == #[trigger] grown(b, s, reach, limit, radius, keys@, now_ns)
    }
}

/// Grows the basin around an anchor by a few zones, until the isochrone does not
/// grow with it. `reach` is how far the isochrone gets, `area` gives the radius
/// that follows from it and the zones inside, and `a_metre_on` adds a metre.
pub fn grow_basin<A: Fn(LatLon, Real) -> (Real, Vec<ZoneKey>), L: Fn(Real) -> Real>(
    basin: &mut Option<Basin>,
    trails: &mut TrailStore,
    anchor: LatLon,
    reach: Real,
    area: A,
    a_metre_on: L,
    now_ns: u64,
)
    requires
        old(trails).wf(),
        forall|p: LatLon, r: Real| call_requires(area, (p, r)),
        forall|r: Real| call_requires(a_metre_on, (r,)),
    ensures
        final(trails).wf(),
        final(trails).network() == old(trails).network(),
        *final(basin) is Some,
        basin_step(
            anchored(*old(basin), anchor),
            old(trails)@,
            reach,
            area,
            a_metre_on,
            now_ns,
            ((*final(basin))->0, final(trails)@),
        ),
        anchored(*old(basin), anchor).asked <= MAX_BASIN_ZONES ==> (*final(basin))->0.asked
            <= MAX_BASIN_ZONES,
{
    let mut b: Basin = match *basin {
        Some(b) => if b.anchor.same(anchor) {
            b
        } else {
            Basin::new(anchor)
        },
        None => Basin::new(anchor),
    };
    let ghost start = b;
    let ghost s = trails@;
    if b.complete || b.asked >= MAX_BASIN_ZONES || trails.is_waiting() {
        *basin = Some(b);
        return ;
    }
    let (radius, keys): (Real, Vec<ZoneKey>) = area(b.anchor, reach);
    let limit: Real = a_metre_on(b.reach_at_last_ask);
    b.radius_m = radius;
    b.zones = keys.len();
    b.loaded = trails.zones_loaded(&keys);
    if b.asked > 0 && reach.le(limit) {
        b.complete = true;
        *basin = Some(b);
        assert((b, trails@) == grown(start, s, reach, limit, radius, keys@, now_ns));
        return ;
    }
    b.reach_at_last_ask = reach;
    let left: usize = MAX_BASIN_ZONES - b.asked;
    let step: usize = if left < BASIN_STEP {
        left
    } else {
        BASIN_STEP
    };
    let asked: usize = trails.ensure_some(&keys, step, now_ns);
    if asked == 0 {
        b.complete = true;
    } else {
        b.asked = b.asked + asked;
    }
    *basin = Some(b);
    assert((b, trails@) == grown(start, s, reach, limit, radius, keys@, now_ns));
}

// ---------------------------------------------------------------------------
// On request
// ---------------------------------------------------------------------------

/// What is said after the zones in view were asked for.
pub open spec fn view_words(total: nat, asked: nat) -> Seq<char> {
    if total > MAX_VISIBLE_ZONES {
        "View too wide: "@ + text::decimal(MAX_VISIBLE_ZONES as nat) + " of "@ + text::decimal(
            total,
        ) + " zones requested, zoom in for the rest"@
    } else if asked == 0 {
        "Visible trails already loaded"@
    } else {
        text::decimal(asked) + " zone(s) requested"@
    }
}

/// Asks for the zones in view, not for too many of them, and says what was done
/// where that is wanted.
pub fn load_visible_zones(
    trails: &mut TrailStore,
    keys: &Vec<ZoneKey>,
    announce: bool,
    now_ns: u64,
) -> (words: Option<String>)
    requires
        old(trails).wf(),
    ensures
        final(trails).wf(),
        final(trails).network() == old(trails).network(),
        ({
            let first = keys@.take(
                vstd::math::min(MAX_VISIBLE_ZONES as int, keys@.len() as int),
            );
            &&& final(trails)@ == old(trails)@.all_ensured(first, now_ns)
            &&& words is Some <==> announce
            &&& words matches Some(w) ==> w@ == view_words(
                keys@.len(),
                old(trails)@.asked_of(first, now_ns),
            )
        }),
{
    let total: usize = keys.len();
    let asked: usize = trails.ensure_zones(keys, MAX_VISIBLE_ZONES, now_ns);
    if !announce {
        return None;
    }
    if total > MAX_VISIBLE_ZONES {
        let mut s = "View too wide: ".to_owned();
        put_decimal(&mut s, MAX_VISIBLE_ZONES as u64);
        s.append(" of ");
        put_decimal(&mut s, total as u64);
        s.append(" zones requested, zoom in for the rest");
        Some(s)
    } else if asked == 0 {
        Some("Visible trails already loaded".to_owned())
    } else {
        let mut s = String::new();
        put_decimal(&mut s, asked as u64);
        assert(s@ =~= text::decimal(asked as nat));
        s.append(" zone(s) requested");
        Some(s)
    }
}

/// What is said after the zones of an area were asked for.
pub open spec fn area_words(asked: nat, radius_km: Seq<char>) -> Seq<char> {
    if asked == 0 {
        "Basin already loaded"@
    } else {
        text::decimal(asked) + " zone(s) requested over a ~"@ + radius_km + " km radius"@
    }
}

/// Asks for the zones that an isochrone can reach, not for too many of them, and
/// says what was done. The radius comes as a text, in kilometres.
pub fn load_isochrone_area(
    trails: &mut TrailStore,
    keys: &Vec<ZoneKey>,
    radius_km: &str,
    now_ns: u64,
) -> (words: String)
    requires
        old(trails).wf(),
    ensures
        final(trails).wf(),
        final(trails).network() == old(trails).network(),
        ({
            let first = keys@.take(vstd::math::min(MAX_AREA_ZONES as int, keys@.len() as int));
            let s = old(trails)@.all_pardoned(first);
            let enough = s.until_enough(first, MAX_AREA_ZONES as nat, now_ns);
            &&& final(trails)@ == s.all_ensured(enough, now_ns)
            &&& words@ == area_words(s.asked_of(enough, now_ns), radius_km@)
        }),
{
    let asked: usize = trails.ensure_area(keys, MAX_AREA_ZONES, now_ns);
    if asked == 0 {
        "Basin already loaded".to_owned()
    } else {
        let mut s = String::new();
        put_decimal(&mut s, asked as u64);
        assert(s@ =~= text::decimal(asked as nat));
        s.append(" zone(s) requested over a ~");
        s.append(radius_km);
        s.append(" km radius");
        s
    }
}

/// A basin that is complete, or that has asked for all it may, is left alone:
/// from then on no frame asks for anything on its behalf.
pub proof fn law_a_settled_basin_asks_for_nothing<
    A: Fn(LatLon, Real) -> (Real, Vec<ZoneKey>),
    L: Fn(Real) -> Real,
>(
    b: Basin,
    s: StoreState,
    reach: Real,
    area: A,
    a_metre_on: L,
    now_ns: u64,
    after: (Basin, StoreState),
)
    requires
        b.complete || b.asked >= MAX_BASIN_ZONES,
        basin_step(b, s, reach, area, a_metre_on, now_ns, after),
    ensures
        after == (b, s),
{
}

/// A basin that is not complete after it was measured has asked for more, so
/// basins come to an end: each step is the last or uses up some of what may be
/// asked for.
pub proof fn law_basins_come_to_an_end(
    b: Basin,
    s: StoreState,
    reach: Real,
    limit: Real,
    radius: Real,
    keys: Seq<ZoneKey>,
    now_ns: u64,
)
    requires
        !rests(b, s),
        b.asked + s.asked_of(s.until_enough(keys, next_step(b), now_ns), now_ns) <= usize::MAX,
    ensures
        ({
            let (after, t) = grown(b, s, reach, limit, radius, keys, now_ns);
            after.complete || after.asked > b.asked
        }),
{
}

/// A basin grows by two zones at a time and to sixteen in all, and what is known of
/// it is measured anew each time.
pub proof fn law_a_basin_grows_by_two_zones(
    b: Basin,
    s: StoreState,
    reach: Real,
    limit: Real,
    radius: Real,
    keys: Seq<ZoneKey>,
    now_ns: u64,
)
    requires
        b.asked < 16,
        keys.len() <= usize::MAX,
    ensures
        ({
            let (after, t) = grown(b, s, reach, limit, radius, keys, now_ns);
            &&& b.asked <= after.asked <= b.asked + 2
            &&& after.asked <= 16
            &&& after.anchor == b.anchor
            &&& after.radius_m == radius
            &&& after.zones == keys.len()
            &&& after.loaded == store::loaded_among(s.loaded, keys)
        }),
{
    store::law_new_zones_are_capped(s, keys, next_step(b), now_ns);
    store::law_loaded_zones_are_counted(s.loaded, keys);
}

/// A basin is complete once zones were asked for and the isochrone reaches no
/// further than before; then nothing more is asked for. As long as it does reach
/// further the distance is remembered, and zones are asked for in their order.
pub proof fn law_a_basin_is_complete_when_it_no_longer_helps(
    b: Basin,
    s: StoreState,
    reach: Real,
    limit: Real,
    radius: Real,
    keys: Seq<ZoneKey>,
    now_ns: u64,
)
    requires
        b.asked < 16,
        !b.complete,
    ensures
        ({
            let (after, t) = grown(b, s, reach, limit, radius, keys, now_ns);
            let n = s.until_enough(keys, next_step(b), now_ns).len() as int;
            &&& b.asked > 0 && reach.at_most(limit) ==> after.complete && t == s
                && after.reach_at_last_ask == b.reach_at_last_ask && after.asked == b.asked
            &&& b.asked == 0 || !reach.at_most(limit) ==> {
                &&& after.reach_at_last_ask == reach
                &&& t == s.all_ensured(keys.take(n), now_ns)
                &&& after.complete <==> after.asked == b.asked
            }
        }),
{
    store::law_new_zones_are_capped(s, keys, next_step(b), now_ns);
}

/// A basin waits while zones are on their way, and rests for good when it is
/// complete or has asked for sixteen.
pub proof fn law_a_basin_waits_for_its_zones(b: Basin, s: StoreState)
    ensures
        s.pending.len() > 0 || s.queue.len() > 0 ==> rests(b, s),
        s.pending.len() == 0 && s.queue.len() == 0 ==> (rests(b, s) <==> b.complete || b.asked
            >= 16),
{
}

/// A new last point starts a new basin, and the same point keeps the old one.
pub proof fn law_a_new_point_starts_a_new_basin(b: Basin, anchor: LatLon)
    ensures
        anchored(None, anchor) == fresh(anchor),
        b.anchor.level_with(anchor) ==> anchored(Some(b), anchor) == b,
        !b.anchor.level_with(anchor) ==> {
            let n = anchored(Some(b), anchor);
            n.anchor == anchor && n.asked == 0 && n.loaded == 0 && !n.complete && n.reach_at_last_ask
                == (Real { bits: 0 })
        },
{
}

/// A word on loading is given where it is wanted, no point drives it, and the view
/// is not as near as zoom thirteen.
pub proof fn law_a_hint_is_given_below_zoom_thirteen(wanted: bool, placed: bool, zoom: u8)
    ensures
        auto_hint(wanted, placed, zoom) is Some <==> wanted && !placed && zoom < 13,
{
}

/// What is said of a view: that it is too wide where it spans more than twelve zones,
/// else how many of them were asked for, if any.
pub proof fn law_a_wide_view_is_told(total: nat, asked: nat)
    ensures
        total > 12 ==> view_words(total, asked) == "View too wide: "@ + text::decimal(12) + " of "@
            + text::decimal(total) + " zones requested, zoom in for the rest"@,
        total <= 12 && asked > 0 ==> view_words(total, asked) == text::decimal(asked)
            + " zone(s) requested"@,
        total <= 12 && asked == 0 ==> view_words(total, asked) == "Visible trails already loaded"@,
{
}

/// What is said of an area: how many zones were asked for and over which radius, or
/// that all of it was loaded.
pub proof fn law_an_area_is_told(asked: nat, radius_km: Seq<char>)
    ensures
        asked > 0 ==> area_words(asked, radius_km) == text::decimal(asked)
            + " zone(s) requested over a ~"@ + radius_km + " km radius"@,
        asked == 0 ==> area_words(asked, radius_km) == "Basin already loaded"@,
{
}

/// What is said of a basin: the zones in memory, how far it goes, and that it grows
/// for as long as it is not complete.
pub proof fn law_a_growing_basin_is_told(b: Basin, radius_km: Seq<char>)
    ensures
        b.complete ==> b.words(radius_km) == "basin "@ + text::decimal(b.loaded as nat)
            + " zones · "@ + radius_km + " km around the last point"@,
        !b.complete ==> b.words(radius_km) == "basin "@ + text::decimal(b.loaded as nat)
            + " zones · "@ + radius_km + " km around the last point"@ + " · growing"@,
{
    reveal_strlit("");
    let head = "basin "@ + text::decimal(b.loaded as nat) + " zones · "@ + radius_km
        + " km around the last point"@;
    assert(head + ""@ =~= head);
}

/// A basin that does not rest is measured around its anchor, as far as the isochrone
/// reaches.
pub proof fn law_a_basin_is_measured_around_its_anchor<
    A: Fn(LatLon, Real) -> (Real, Vec<ZoneKey>),
    L: Fn(Real) -> Real,
>(
    b: Basin,
    s: StoreState,
    reach: Real,
    area: A,
    a_metre_on: L,
    now_ns: u64,
    after: (Basin, StoreState),
)
    requires
        basin_step(b, s, reach, area, a_metre_on, now_ns, after),
        !b.complete,
        b.asked < 16,
        s.pending.len() == 0,
        s.queue.len() == 0,
    ensures
        exists|radius: Real, keys: Vec<ZoneKey>| #[trigger]
            call_ensures(area, (b.anchor, reach), (radius, keys)) && after.0.radius_m == radius
                && after.0.zones == keys@.len(),
{
    let (radius, keys, limit) = choose|radius: Real, keys: Vec<ZoneKey>, limit: Real|
        call_ensures(area, (b.anchor, reach), (radius, keys)) && call_ensures(
            a_metre_on,
            (b.reach_at_last_ask,),
            limit,
        ) && after == #[trigger] grown(b, s, reach, limit, radius, keys@, now_ns);
    assert(keys@.len() == keys.len());
    assert(call_ensures(area, (b.anchor, reach), (radius, keys)));
}

} // verus!
