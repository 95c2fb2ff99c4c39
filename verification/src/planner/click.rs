//! What a click on the map becomes.
use vstd::prelude::*;

use crate::geo::LatLon;
use crate::track::{Track, Waypoint};
use crate::trails::store;
use crate::trails::store::TrailStore;
use crate::trails::{Snap, ZoneKey};

verus! {

/// A click that waits for the zone that lets it snap, and what was last said.
#[derive(Clone, Debug)]
pub struct PendingClick {
    pub at: Option<LatLon>,
    pub status: Option<String>,
}

impl PendingClick {
    pub fn new() -> (c: Self)
        ensures
            c.at is None,
            c.status is None,
    {
        PendingClick { at: None, status: None }
    }

    /// A click that has to snap.
    pub fn clicked(&mut self, at: LatLon)
        ensures
            final(self).at == Some(at),
            final(self).status is None,
    {
        self.at = Some(at);
        self.status = None;
    }

    /// Says something.
    pub fn say(&mut self, words: String)
        ensures
            final(self).at == old(self).at,
            final(self).status == Some(words),
    {
        self.status = Some(words);
    }
}

/// Takes a click on the map. One that snaps waits for its zone, which is asked
/// for. One that does not becomes a point where it is.
pub fn click_on_map(
    click: &mut PendingClick,
    track: &mut Track,
    trails: &mut TrailStore,
    snaps: bool,
    at: LatLon,
    fine: ZoneKey,
    coarse: ZoneKey,
    now_ns: u64,
)
    requires
        old(trails).wf(),
    ensures
        final(trails).wf(),
        final(trails).network() == old(trails).network(),
        if snaps {
            &&& final(click).at == Some(at)
            &&& final(click).status is None
            &&& *final(track) == *old(track)
            &&& final(trails)@ == if old(trails)@.loaded.contains(fine.code_of())
                || old(trails)@.loaded.contains(coarse.code_of()) {
                old(trails)@
            } else {
                old(trails)@.ensured(fine, now_ns)
            }
        } else {
            &&& *final(click) == *old(click)
            &&& final(trails)@ == old(trails)@
            &&& final(track).waypoints@.len() == old(track).waypoints@.len() + 1
            &&& final(track).waypoints@.drop_last() == old(track).waypoints@
            &&& final(track).waypoints@.last() == (Waypoint { pos: at, snap: None, via: None })
            &&& *final(track) == (Track {
                waypoints: final(track).waypoints,
                dirty: true,
                ..*old(track)
            })
        },
{
    if snaps {
        trails.ensure(fine, coarse, now_ns);
        click.clicked(at);
    } else {
        track.push(Waypoint::free(at));
        assert(track.waypoints@.drop_last() =~= old(track).waypoints@);
    }
}

/// Whether the zone of a waiting click has come, so that the click can be
/// resolved. A zone that was given up ends the wait, and it is said why.
pub fn await_zone(click: &mut PendingClick, trails: &TrailStore, fine: ZoneKey, coarse: ZoneKey) -> (
    ready: bool)
    requires
        trails.wf(),
    ensures
        ({
            let waits = old(click).at is Some;
            let failed = store::given_up(trails@.failed, fine);
            let loaded = trails@.loaded.contains(fine.code_of()) || trails@.loaded.contains(
                coarse.code_of(),
            );
            &&& ready == (waits && !failed && loaded)
            &&& waits && (failed || loaded) ==> final(click).at is None
            &&& !waits || !failed && !loaded ==> final(click).at == old(click).at
            &&& !waits || !failed ==> final(click).status == old(click).status
            &&& waits && failed ==> exists|why: Seq<char>|
                #[trigger] trails@.failed.contains((fine, why)) && (final(click).status matches Some(
                    s,
                ) && s@ == "Trails unavailable: "@ + why)
        }),
{
    if click.at.is_none() {
        return false;
    }
    match trails.zone_failed(fine) {
        Some(why) => {
            let mut s = "Trails unavailable: ".to_owned();
            s.append(why);
            click.status = Some(s);
            click.at = None;
            return false;
        },
        None => {},
    }
    if !trails.zone_ready(fine, coarse) {
        return false;
    }
    click.at = None;
    true
}

/// Numbers that go into what is said, as texts.
#[derive(Clone, Debug)]
pub struct ClickWords {
    /// How far a click may be from a trail, in metres.
    pub radius_m: String,
    /// How far it was, in metres.
    pub dist_m: String,
    /// How long the leg is, in kilometres.
    pub leg_km: String,
}

/// The waypoint that a snapped click becomes. The first point has nothing to
/// join; after it a route over the graph is preferred.
pub open spec fn becomes(first: bool, snap: Snap, via: Option<Vec<LatLon>>, wp: Waypoint) -> bool {
    &&& wp.pos == snap.pos
    &&& wp.snap == Some(snap)
    &&& wp.via == if first {
        None
    } else {
        via
    }
}

/// What is said of a click.
pub open spec fn click_words(
    first: bool,
    snap: Option<Snap>,
    routed: bool,
    radius_m: Seq<char>,
    dist_m: Seq<char>,
    leg_km: Seq<char>,
) -> Seq<char> {
    if snap is None {
        "No trail within "@ + radius_m + " m — point refused"@
    } else if first {
        "Start snapped "@ + dist_m + " m from the click"@
    } else if routed {
        "Leg drawn along trails: "@ + leg_km + " km"@
    } else {
        "Outside the isochrone (or incomplete graph) — direct link"@
    }
}

/// Places a click: refused without a trail nearby, else added to the track. Tells
/// whether it was added.
pub fn place_click(
    click: &mut PendingClick,
    track: &mut Track,
    snap: Option<Snap>,
    via: Option<Vec<LatLon>>,
    words: &ClickWords,
) -> (placed: bool)
    ensures
        placed == snap is Some,
        ({
            let first = old(track).waypoints@.len() == 0;
            &&& snap is None ==> *final(track) == *old(track)
            &&& snap matches Some(s) ==> {
                &&& final(track).dirty
                &&& final(track).waypoints@.len() == old(track).waypoints@.len() + 1
                &&& final(track).waypoints@.drop_last() == old(track).waypoints@
                &&& becomes(first, s, via, final(track).waypoints@.last())
                &&& *final(track) == (Track {
                    waypoints: final(track).waypoints,
                    dirty: true,
                    ..*old(track)
                })
            }
            &&& final(click).at == old(click).at
            &&& final(click).status matches Some(t) && t@ == click_words(
                first,
                snap,
                via is Some,
                words.radius_m@,
                words.dist_m@,
                words.leg_km@,
            )
        }),
{
    let snap: Snap = match snap {
        Some(s) => s,
        None => {
            let mut s = "No trail within ".to_owned();
            s.append(words.radius_m.as_str());
            s.append(" m — point refused");
            click.status = Some(s);
            return false;
        },
    };
    let ghost was = track.waypoints@;
    if track.waypoints.len() == 0 {
        let mut s = "Start snapped ".to_owned();
        s.append(words.dist_m.as_str());
        s.append(" m from the click");
        click.status = Some(s);
        track.push(Waypoint::snapped(snap));
    } else {
        match via {
            Some(line) => {
                let mut s = "Leg drawn along trails: ".to_owned();
                s.append(words.leg_km.as_str());
                s.append(" km");
                click.status = Some(s);
                track.push(Waypoint::routed(snap, line));
            },
            None => {
                click.status = Some(
                    "Outside the isochrone (or incomplete graph) — direct link".to_owned(),
                );
                track.push(Waypoint::snapped(snap));
            },
        }
    }
    assert(track.waypoints@.drop_last() =~= was);
    true
}

} // verus!
