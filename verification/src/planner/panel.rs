//! What the panel beside the map says, line by line. Numbers with a fraction come
//! as texts.
use vstd::prelude::*;

use crate::dem::DemStore;
use crate::graph::reach;
use crate::map::{TileRenderer, MAX_TILE_REQUESTS};
use crate::number::Single;
use crate::planner::isochrone::Planner;
use crate::planner::loading;
use crate::planner::loading::{auto_trails_hint, Basin};
use crate::terrain;
use crate::terrain::{cardinal, position, sunny};
use crate::text;
use crate::text::put_decimal;
use crate::tiles::RasterLayer;
use crate::track;
use crate::track::{format_duration, Track};
use crate::trails::network::TrailNetwork;
use crate::trails::store::{StoreState, TrailStore};
use crate::trails::way;

verus! {

/// How a line is meant.
#[derive(Clone, Copy, Debug, PartialEq, Eq, Structural)]
pub enum Tone {
    /// A figure among others, to be read in columns.
    Figure,
    /// A plain line.
    Label,
    /// Something said in passing.
    Remark,
    /// Work that goes on.
    Busy,
    /// What is shown may mislead.
    Caution,
    /// Something is past its limit.
    Warning,
    /// Something went wrong.
    Failure,
}

/// One line.
#[derive(Clone, Debug)]
pub struct Line {
    pub tone: Tone,
    pub text: String,
}

/// A line as it is meant and read.
pub type Said = (Tone, Seq<char>);

/// The lines as they are meant and read.
pub open spec fn said(v: Seq<Line>) -> Seq<Said> {
    Seq::new(v.len(), |i: int| (v[i].tone, v[i].text@))
}

/// A line that is only said under a condition.
pub open spec fn said_if(c: bool, tone: Tone, words: Seq<char>) -> Seq<Said> {
    if c {
        seq![(tone, words)]
    } else {
        seq![]
    }
}

/// Adds a line.
fn say(out: &mut Vec<Line>, tone: Tone, text: String)
    ensures
        said(final(out)@) == said(old(out)@).push((tone, text@)),
{
    out.push(Line { tone, text });
    assert(said(out@) =~= said(old(out)@).push((tone, text@)));
}

/// A number between two texts.
fn counted(head: &str, n: usize, tail: &str) -> (s: String)
    ensures
        s@ == head@ + text::decimal(n as nat) + tail@,
{
    let mut s = head.to_owned();
    put_decimal(&mut s, n as u64);
    s.append(tail);
    s
}

/// A text between two others.
fn quoted(head: &str, middle: &str, tail: &str) -> (s: String)
    ensures
        s@ == head@ + middle@ + tail@,
{
    let mut s = head.to_owned();
    s.append(middle);
    s.append(tail);
    s
}

// ---------------------------------------------------------------------------
// Layers and trails
// ---------------------------------------------------------------------------

/// What is said beside a layer that has no tiles of its own at a zoom.
pub fn zoom_limit(layer: RasterLayer, zoom: u8) -> (r: Option<String>)
    ensures
        r is Some <==> zoom > crate::map::zoom_range_of(layer).1,
        r matches Some(s) ==> s@ == "(<= z"@ + text::decimal(
            crate::map::zoom_range_of(layer).1 as nat,
        ) + ")"@,
{
    let last: u8 = layer.zoom_range().1;
    if zoom > last {
        Some(counted("(<= z", last as usize, ")"))
    } else {
        None
    }
}

/// What is said of the trails: how many there are, how far the basin is, why
/// nothing is loaded, what is on its way and what was given up.
pub open spec fn trails_said(
    s: StoreState,
    ways: nat,
    basin: Option<Seq<char>>,
    hint: Option<Seq<char>>,
) -> Seq<Said> {
    let waiting = s.pending.len() + s.queue.len();
    seq![
        (Tone::Figure, text::decimal(s.loaded.len()) + " zones · "@ + text::decimal(ways) + " ways"@),
    ] + said_if(basin is Some, Tone::Figure, basin->0) + said_if(hint is Some, Tone::Remark, hint->0)
        + said_if(waiting > 0, Tone::Busy, text::decimal(waiting) + " zone(s) loading"@) + said_if(
        s.failed.len() > 0,
        Tone::Failure,
        text::decimal(s.failed.len()) + " zone(s) failed"@,
    )
}

/// The lines on the trails. The radius of the basin comes in kilometres.
pub fn trail_lines(
    trails: &TrailStore,
    basin: &Option<Basin>,
    radius_km: &str,
    wanted: bool,
    placed: bool,
    zoom: u8,
) -> (v: Vec<Line>)
    requires
        trails.wf(),
        trails@.pending.len() + trails@.queue.len() <= usize::MAX,
    ensures
        said(v@) == trails_said(
            trails@,
            trails.network().list().len(),
            match *basin {
                Some(b) => Some(b.words(radius_km@)),
                None => None,
            },
            loading::auto_hint(wanted, placed, zoom),
        ),
{
    let mut v: Vec<Line> = Vec::new();
    let (zones, waiting, failed, ways) = trails.stats();
    let mut counts = counted("", zones, " zones · ");
    put_decimal(&mut counts, ways as u64);
    counts.append(" ways");
    proof {
        reveal_strlit("");
        assert(counts@ =~= text::decimal(zones as nat) + " zones · "@ + text::decimal(ways as nat)
            + " ways"@);
    }
    say(&mut v, Tone::Figure, counts);
    if let Some(b) = basin {
        say(&mut v, Tone::Figure, b.status(radius_km).0);
    }
    if let Some(hint) = auto_trails_hint(wanted, placed, zoom) {
        say(&mut v, Tone::Remark, hint.to_owned());
    }
    if waiting > 0 {
        let s = counted("", waiting, " zone(s) loading");
        proof {
            reveal_strlit("");
            assert(s@ =~= text::decimal(waiting as nat) + " zone(s) loading"@);
        }
        say(&mut v, Tone::Busy, s);
    }
    if failed > 0 {
        let s = counted("", failed, " zone(s) failed");
        proof {
            reveal_strlit("");
            assert(s@ =~= text::decimal(failed as nat) + " zone(s) failed"@);
        }
        say(&mut v, Tone::Failure, s);
    }
    v
}

// ---------------------------------------------------------------------------
// The isochrone
// ---------------------------------------------------------------------------

/// What is said of the graph.
pub open spec fn graph_said(p: Planner) -> Seq<Said> {
    if p.graph.shape().edges.len() == 0 {
        seq![(Tone::Remark, "Empty graph — place a point or load some trails"@)]
    } else {
        seq![
            (
                Tone::Figure,
                "graph     "@ + text::decimal(p.graph.shape().nodes.len()) + " nodes · "@
                    + text::decimal(p.graph.shape().edges.len()) + " edges"@,
            ),
        ] + said_if(!p.graph_elevated, Tone::Remark, "reading climbs from the DEM"@)
    }
}

/// What is said of the isochrone. One on a part of the network does not look
/// partial: it stops at the edge of the data, so that has to be said.
pub open spec fn reach_said(
    p: Planner,
    placed: bool,
    show: bool,
    growing: bool,
    furthest_km: Seq<char>,
) -> Seq<Said> {
    match p.iso {
        Some(iso) => seq![
            (
                Tone::Figure,
                "reached   "@ + text::decimal(reach::reached(iso.reach.costs())) + " nodes · "@
                    + text::decimal(iso.edges@.len()) + " stretches"@,
            ),
            (Tone::Figure, "furthest  "@ + furthest_km + " km away"@),
        ] + said_if(
            growing,
            Tone::Caution,
            "! trails still loading — reach shown is a lower bound"@,
        ),
        None => said_if(placed && show, Tone::Remark, "last point is off the graph"@),
    }
}

/// The lines on graph and isochrone. `growing` says that the basin is, and the
/// furthest node comes in kilometres.
pub fn isochrone_lines(
    planner: &Planner,
    placed: bool,
    show: bool,
    growing: bool,
    furthest_km: &str,
) -> (v: Vec<Line>)
    requires
        planner.wf(),
    ensures
        said(v@) == graph_said(*planner) + reach_said(*planner, placed, show, growing, furthest_km@),
{
    let mut v: Vec<Line> = Vec::new();
    if planner.graph.is_empty() {
        say(
            &mut v,
            Tone::Remark,
            "Empty graph — place a point or load some trails".to_owned(),
        );
    } else {
        let mut s = counted("graph     ", planner.graph.node_count(), " nodes · ");
        put_decimal(&mut s, planner.graph.edge_count() as u64);
        s.append(" edges");
        say(&mut v, Tone::Figure, s);
        if !planner.graph_elevated {
            say(&mut v, Tone::Remark, "reading climbs from the DEM".to_owned());
        }
    }
    assert(said(v@) =~= graph_said(*planner));
    match &planner.iso {
        Some(iso) => {
            let mut s = counted("reached   ", iso.reach.reached_count(), " nodes · ");
            put_decimal(&mut s, iso.edges.len() as u64);
            s.append(" stretches");
            say(&mut v, Tone::Figure, s);
            say(&mut v, Tone::Figure, quoted("furthest  ", furthest_km, " km away"));
            if growing {
                say(
                    &mut v,
                    Tone::Caution,
                    "! trails still loading — reach shown is a lower bound".to_owned(),
                );
            }
        },
        None => {
            if placed && show {
                say(&mut v, Tone::Remark, "last point is off the graph".to_owned());
            }
        },
    }
    v
}

// ---------------------------------------------------------------------------
// View, walking and leg
// ---------------------------------------------------------------------------

/// A position as texts, and its elevation once it is known.
#[derive(Clone, Debug)]
pub struct Cursor {
    pub lat: String,
    pub lon: String,
    pub elev_m: Option<String>,
}

/// What is said of the place under the cursor.
pub open spec fn cursor_said(cursor: Option<Cursor>) -> Seq<Said> {
    match cursor {
        Some(c) => seq![
            (Tone::Figure, "cursor  "@ + c.lat@ + ", "@ + c.lon@),
            (
                Tone::Figure,
                match c.elev_m {
                    Some(m) => "elev    "@ + m@ + " m"@,
                    None => "elev    ..."@,
                },
            ),
        ],
        None => seq![(Tone::Figure, "cursor  —"@), (Tone::Figure, "elev    —"@)],
    }
}

/// The lines on the centre of the view and on the cursor.
pub fn view_lines(lat: &str, lon: &str, cursor: &Option<Cursor>) -> (v: Vec<Line>)
    ensures
        said(v@) == seq![(Tone::Figure, "centre  "@ + lat@ + ", "@ + lon@)] + cursor_said(*cursor),
{
    let mut v: Vec<Line> = Vec::new();
    let mut s = quoted("centre  ", lat, ", ");
    s.append(lon);
    say(&mut v, Tone::Figure, s);
    match cursor {
        Some(c) => {
            let mut s = quoted("cursor  ", c.lat.as_str(), ", ");
            s.append(c.lon.as_str());
            say(&mut v, Tone::Figure, s);
            match &c.elev_m {
                Some(m) => {
                    say(&mut v, Tone::Figure, quoted("elev    ", m.as_str(), " m"));
                },
                None => {
                    say(&mut v, Tone::Figure, "elev    ...".to_owned());
                },
            }
        },
        None => {
            say(&mut v, Tone::Figure, "cursor  —".to_owned());
            say(&mut v, Tone::Figure, "elev    —".to_owned());
        },
    }
    v
}

/// The lines on the load that is carried. The load it should stay below comes in
/// kilograms.
pub fn walk_lines(speed_factor: &str, limit_kg: &str, overloaded: bool) -> (v: Vec<Line>)
    ensures
        said(v@) == seq![
            (
                Tone::Label,
                "speed factor "@ + speed_factor@ + " · load limit "@ + limit_kg@ + " kg"@,
            ),
        ] + said_if(overloaded, Tone::Warning, "! pack over 20% of body weight"@),
{
    let mut v: Vec<Line> = Vec::new();
    let mut s = quoted("speed factor ", speed_factor, " · load limit ");
    s.append(limit_kg);
    s.append(" kg");
    say(&mut v, Tone::Label, s);
    if overloaded {
        say(&mut v, Tone::Warning, "! pack over 20% of body weight".to_owned());
    }
    v
}

/// The figures of a track, as texts.
#[derive(Clone, Debug)]
pub struct TrackWords {
    pub distance_km: String,
    pub ascent_m: String,
    pub descent_m: String,
}

/// What is said of a track with some waypoints, of whose legs some follow a
/// trail.
pub open spec fn track_said(
    distance_km: Seq<char>,
    ascent_m: Seq<char>,
    descent_m: Seq<char>,
    minutes: Option<u64>,
    waypoints: nat,
    followed: nat,
    complete: bool,
) -> Seq<Said> {
    seq![
        (Tone::Figure, "distance  "@ + distance_km + " km"@),
        (Tone::Figure, "ascent    "@ + ascent_m + " m"@),
        (Tone::Figure, "descent   "@ + descent_m + " m"@),
        (Tone::Figure, "duration  "@ + track::duration_text(minutes)),
    ] + said_if(
        waypoints >= 2,
        Tone::Figure,
        "on trail  "@ + text::decimal(followed) + "/"@ + text::decimal((waypoints - 1) as nat)
            + " legs"@,
    ) + said_if(
        waypoints > 0 && !complete,
        Tone::Remark,
        "DEM still loading — figures are partial"@,
    )
}

/// The lines on a track. The duration comes in minutes.
pub fn track_lines(
    track: &Track,
    net: &TrailNetwork,
    words: &TrackWords,
    minutes: Option<u64>,
) -> (v: Vec<Line>)
    requires
        net.wf(),
        forall|k: int|
            0 <= k < track.waypoints@.len() ==> track::snap_fits(
                net.list(),
                #[trigger] track.waypoints@[k],
            ),
    ensures
        said(v@) == track_said(
            words.distance_km@,
            words.ascent_m@,
            words.descent_m@,
            minutes,
            track.waypoints@.len(),
            track::followed_to(net.list(), track.waypoints@, track.waypoints@.len() as int),
            track.stats.elevation_complete,
        ),
{
    let mut v: Vec<Line> = Vec::new();
    say(&mut v, Tone::Figure, quoted("distance  ", words.distance_km.as_str(), " km"));
    say(&mut v, Tone::Figure, quoted("ascent    ", words.ascent_m.as_str(), " m"));
    say(&mut v, Tone::Figure, quoted("descent   ", words.descent_m.as_str(), " m"));
    let mut duration = "duration  ".to_owned();
    duration.append(format_duration(minutes).as_str());
    say(&mut v, Tone::Figure, duration);
    let placed: usize = track.waypoints.len();
    if placed >= 2 {
        let mut s = counted("on trail  ", track.followed_legs(net), "/");
        put_decimal(&mut s, (placed - 1) as u64);
        s.append(" legs");
        say(&mut v, Tone::Figure, s);
    }
    if placed > 0 && !track.stats.elevation_complete {
        say(&mut v, Tone::Remark, "DEM still loading — figures are partial".to_owned());
    }
    v
}

// ---------------------------------------------------------------------------
// The spot for the night
// ---------------------------------------------------------------------------

/// Which way a slope faces: the sector it is in, and the angle, also as a text.
#[derive(Clone, Debug)]
pub struct Facing {
    pub sector: i32,
    pub angle: Single,
    pub deg: String,
}

/// The figures of a spot, as texts. There is no facing on flat ground.
#[derive(Clone, Debug)]
pub struct SpotWords {
    pub elevation_m: String,
    pub slope_deg: String,
    pub roughness_m: String,
    pub facing: Option<Facing>,
    /// How far it lies above its surroundings, also as a text.
    pub above: Single,
    pub above_m: String,
}

/// What is said of the way a slope faces.
pub open spec fn facing_said(facing: Option<Facing>) -> Seq<Said> {
    match facing {
        Some(f) => seq![
            (
                Tone::Figure,
                "aspect     "@ + terrain::sectors()[f.sector as int % 8] + " ("@ + f.deg@ + " deg)"@,
            ),
            (
                Tone::Remark,
                if terrain::in_the_sun(f.angle) {
                    "in the sun for much of the day"@
                } else {
                    "cold aspect, dries slowly and holds snow late"@
                },
            ),
        ],
        None => seq![(Tone::Figure, "aspect     — (flat ground)"@)],
    }
}

/// What is said of a spot that was looked at.
pub open spec fn spot_said(w: SpotWords) -> Seq<Said> {
    seq![
        (Tone::Label, "Chance of flat ground"@),
        (
            Tone::Remark,
            "A 5 m DEM cannot see a two-metre terrace. This points at where to look, it is not a verdict."@,
        ),
        (Tone::Figure, "elevation  "@ + w.elevation_m@ + " m"@),
        (Tone::Figure, "slope      "@ + w.slope_deg@ + " deg"@),
        (Tone::Figure, "roughness  "@ + w.roughness_m@ + " m"@),
    ] + facing_said(w.facing) + seq![
        (
            Tone::Figure,
            "position   "@ + w.above_m@ + " m ("@ + terrain::position_of(w.above).name() + ")"@,
        ),
        (Tone::Remark, terrain::position_of(w.above).meaning()),
    ]
}

/// The lines on the spot for the night: none was placed, or it is being looked
/// at, or this is what it is like.
pub fn spot_lines(placed: bool, words: &Option<SpotWords>) -> (v: Vec<Line>)
    ensures
        said(v@) == if !placed {
            seq![(Tone::Remark, "Place a point: it becomes the bivouac candidate."@)]
        } else {
            match *words {
                Some(w) => spot_said(w),
                None => seq![(Tone::Busy, "reading the DEM..."@)],
            }
        },
{
    let mut v: Vec<Line> = Vec::new();
    if !placed {
        say(
            &mut v,
            Tone::Remark,
            "Place a point: it becomes the bivouac candidate.".to_owned(),
        );
        return v;
    }
    let w = match words {
        Some(w) => w,
        None => {
            say(&mut v, Tone::Busy, "reading the DEM...".to_owned());
            return v;
        },
    };
    say(&mut v, Tone::Label, "Chance of flat ground".to_owned());
    say(
        &mut v,
        Tone::Remark,
        "A 5 m DEM cannot see a two-metre terrace. This points at where to look, it is not a verdict.".to_owned(),
    );
    say(&mut v, Tone::Figure, quoted("elevation  ", w.elevation_m.as_str(), " m"));
    say(&mut v, Tone::Figure, quoted("slope      ", w.slope_deg.as_str(), " deg"));
    say(&mut v, Tone::Figure, quoted("roughness  ", w.roughness_m.as_str(), " m"));
    match &w.facing {
        Some(f) => {
            let mut s = quoted("aspect     ", cardinal(f.sector), " (");
            s.append(f.deg.as_str());
            s.append(" deg)");
            say(&mut v, Tone::Figure, s);
            if sunny(f.angle) {
                say(&mut v, Tone::Remark, "in the sun for much of the day".to_owned());
            } else {
                say(
                    &mut v,
                    Tone::Remark,
                    "cold aspect, dries slowly and holds snow late".to_owned(),
                );
            }
        },
        None => {
            say(&mut v, Tone::Figure, "aspect     — (flat ground)".to_owned());
        },
    }
    let place = position(w.above);
    let mut s = quoted("position   ", w.above_m.as_str(), " m (");
    s.append(place.label());
    s.append(")");
    say(&mut v, Tone::Figure, s);
    say(&mut v, Tone::Remark, place.hint().to_owned());
    v
}

// ---------------------------------------------------------------------------
// Behind the scenes
// ---------------------------------------------------------------------------

/// What is said of a cache: tiles at hand, on their way, given up, and requests
/// on the wire.
pub open spec fn cache_said(
    name: Seq<char>,
    ready: nat,
    loading: nat,
    failed: nat,
    on_wire: nat,
) -> Seq<char> {
    name + "ready "@ + text::decimal(ready) + " · loading "@ + text::decimal(loading)
        + " · failed "@ + text::decimal(failed) + " · on wire "@ + text::decimal(on_wire)
}

fn cache_text(name: &str, stats: (usize, usize, usize), on_wire: usize) -> (s: String)
    ensures
        s@ == cache_said(name@, stats.0 as nat, stats.1 as nat, stats.2 as nat, on_wire as nat),
{
    let mut s = name.to_owned();
    s.append("ready ");
    put_decimal(&mut s, stats.0 as u64);
    s.append(" · loading ");
    put_decimal(&mut s, stats.1 as u64);
    s.append(" · failed ");
    put_decimal(&mut s, stats.2 as u64);
    s.append(" · on wire ");
    put_decimal(&mut s, on_wire as u64);
    s
}

/// The lines on what goes on behind the scenes. A dead instance is the first thing
/// to look for when trails are slow to come, so the one in use is named. The scale
/// comes in metres per pixel.
pub fn debug_lines<V>(
    tiles: &TileRenderer<V>,
    dem: &DemStore,
    scale: &str,
    track: &Track,
    host: &str,
    error: &Option<String>,
) -> (v: Vec<Line>)
    requires
        tiles.wf(),
        dem.wf(),
    ensures
        said(v@) == seq![
            (
                Tone::Figure,
                cache_said(
                    "tiles   "@,
                    tiles.cache@.ready.dom().len(),
                    tiles.cache@.on_wire.len() + tiles.cache@.landed.len(),
                    tiles.cache@.failed.dom().len(),
                    tiles.cache@.on_wire.len(),
                ) + "/"@ + text::decimal(MAX_TILE_REQUESTS as nat),
            ),
            (
                Tone::Figure,
                "painted "@ + text::decimal(tiles.painted as nat) + " · parent fallbacks "@
                    + text::decimal(tiles.fallbacks as nat),
            ),
            (
                Tone::Figure,
                cache_said(
                    "DEM     "@,
                    dem.cache@.ready.dom().len(),
                    dem.cache@.on_wire.len() + dem.cache@.landed.len(),
                    dem.cache@.failed.dom().len(),
                    dem.cache@.on_wire.len(),
                ),
            ),
            (Tone::Figure, "scale   "@ + scale@ + " m/px"@),
            (Tone::Figure, "track points "@ + text::decimal(track.path@.len())),
            (Tone::Figure, "trails  via "@ + host@),
        ] + said_if(
            *error is Some,
            Tone::Failure,
            "Overpass: "@ + way::text_of(*error)->0,
        ),
{
    let mut v: Vec<Line> = Vec::new();
    let mut s = cache_text("tiles   ", tiles.stats(), tiles.in_flight());
    s.append("/");
    put_decimal(&mut s, MAX_TILE_REQUESTS as u64);
    say(&mut v, Tone::Figure, s);
    let mut s = counted("painted ", tiles.painted, " · parent fallbacks ");
    put_decimal(&mut s, tiles.fallbacks as u64);
    say(&mut v, Tone::Figure, s);
    say(&mut v, Tone::Figure, cache_text("DEM     ", dem.stats(), dem.in_flight()));
    say(&mut v, Tone::Figure, quoted("scale   ", scale, " m/px"));
    let mut s = "track points ".to_owned();
    put_decimal(&mut s, track.path.len() as u64);
    say(&mut v, Tone::Figure, s);
    let mut s = "trails  via ".to_owned();
    s.append(host);
    say(&mut v, Tone::Figure, s);
    if let Some(e) = error {
        let mut s = "Overpass: ".to_owned();
        s.append(e.as_str());
        say(&mut v, Tone::Failure, s);
    }
    v
}

/// Some line is meant in a way.
pub open spec fn sounds(lines: Seq<Said>, tone: Tone) -> bool {
    exists|i: int| 0 <= i < lines.len() && (#[trigger] lines[i]).0 == tone
}

proof fn lemma_sounds(lines: Seq<Said>, more: Seq<Said>, tone: Tone)
    ensures
        sounds(lines + more, tone) <==> sounds(lines, tone) || sounds(more, tone),
{
    let all = lines + more;
    if sounds(lines, tone) {
        let i = choose|i: int| 0 <= i < lines.len() && (#[trigger] lines[i]).0 == tone;
        assert(all[i].0 == tone);
    }
    if sounds(more, tone) {
        let i = choose|i: int| 0 <= i < more.len() && (#[trigger] more[i]).0 == tone;
        assert(all[lines.len() + i].0 == tone);
    }
    if sounds(all, tone) {
        let i = choose|i: int| 0 <= i < all.len() && (#[trigger] all[i]).0 == tone;
        if i < lines.len() {
            assert(lines[i].0 == tone);
        } else {
            assert(more[i - lines.len()].0 == tone);
        }
    }
}

proof fn lemma_sounds_if(c: bool, tone: Tone, words: Seq<char>, other: Tone)
    ensures
        sounds(said_if(c, tone, words), other) <==> c && tone == other,
{
    let line = said_if(c, tone, words);
    if c {
        assert(line[0].0 == tone);
    }
}

/// The panel speaks of a failure just where a zone was given up, of work that goes
/// on just where one is on its way or waits, and in passing just where there is a
/// hint.
pub proof fn law_failures_and_work_are_told(
    s: StoreState,
    ways: nat,
    basin: Option<Seq<char>>,
    hint: Option<Seq<char>>,
)
    ensures
        sounds(trails_said(s, ways, basin, hint), Tone::Failure) <==> s.failed.len() > 0,
        sounds(trails_said(s, ways, basin, hint), Tone::Busy) <==> s.pending.len() > 0
            || s.queue.len() > 0,
        sounds(trails_said(s, ways, basin, hint), Tone::Remark) <==> hint is Some,
{
    let waiting = s.pending.len() + s.queue.len();
    let head = seq![
        (Tone::Figure, text::decimal(s.loaded.len()) + " zones · "@ + text::decimal(ways) + " ways"@),
    ];
    let a = said_if(basin is Some, Tone::Figure, basin->0);
    let b = said_if(hint is Some, Tone::Remark, hint->0);
    let c = said_if(waiting > 0, Tone::Busy, text::decimal(waiting) + " zone(s) loading"@);
    let d = said_if(
        s.failed.len() > 0,
        Tone::Failure,
        text::decimal(s.failed.len()) + " zone(s) failed"@,
    );
    assert forall|tone: Tone| #[trigger] sounds(trails_said(s, ways, basin, hint), tone) <==> sounds(
        head,
        tone,
    ) || sounds(a, tone) || sounds(b, tone) || sounds(c, tone) || sounds(d, tone) by {
        lemma_sounds(head, a, tone);
        lemma_sounds(head + a, b, tone);
        lemma_sounds(head + a + b, c, tone);
        lemma_sounds(head + a + b + c, d, tone);
    }
    assert forall|tone: Tone| tone != Tone::Figure implies !#[trigger] sounds(head, tone) by {}
    assert forall|tone: Tone|
        (#[trigger] sounds(a, tone) <==> basin is Some && tone == Tone::Figure) && (sounds(b, tone)
            <==> hint is Some && tone == Tone::Remark) && (sounds(c, tone) <==> waiting > 0 && tone
            == Tone::Busy) && (sounds(d, tone) <==> s.failed.len() > 0 && tone == Tone::Failure) by {
        lemma_sounds_if(basin is Some, Tone::Figure, basin->0, tone);
        lemma_sounds_if(hint is Some, Tone::Remark, hint->0, tone);
        lemma_sounds_if(
            waiting > 0,
            Tone::Busy,
            text::decimal(waiting) + " zone(s) loading"@,
            tone,
        );
        lemma_sounds_if(
            s.failed.len() > 0,
            Tone::Failure,
            text::decimal(s.failed.len()) + " zone(s) failed"@,
            tone,
        );
    }
}

/// A reach that may grow yet is told with caution, and one that is not there is
/// explained where it was asked for.
pub proof fn law_a_partial_reach_is_told_with_caution(
    p: Planner,
    placed: bool,
    show: bool,
    growing: bool,
    furthest_km: Seq<char>,
)
    ensures
        sounds(reach_said(p, placed, show, growing, furthest_km), Tone::Caution) <==> p.iso is Some
            && growing,
        sounds(reach_said(p, placed, show, growing, furthest_km), Tone::Remark) <==> p.iso is None
            && placed && show,
{
    let caution = "! trails still loading — reach shown is a lower bound"@;
    let off = "last point is off the graph"@;
    lemma_sounds_if(growing, Tone::Caution, caution, Tone::Caution);
    lemma_sounds_if(growing, Tone::Caution, caution, Tone::Remark);
    lemma_sounds_if(placed && show, Tone::Remark, off, Tone::Caution);
    lemma_sounds_if(placed && show, Tone::Remark, off, Tone::Remark);
    if let Some(iso) = p.iso {
        let head = seq![
            (
                Tone::Figure,
                "reached   "@ + text::decimal(reach::reached(iso.reach.costs())) + " nodes · "@
                    + text::decimal(iso.edges@.len()) + " stretches"@,
            ),
            (Tone::Figure, "furthest  "@ + furthest_km + " km away"@),
        ];
        lemma_sounds(head, said_if(growing, Tone::Caution, caution), Tone::Caution);
        lemma_sounds(head, said_if(growing, Tone::Caution, caution), Tone::Remark);
    }
}

/// Figures of a track that are not complete are told to be partial, and only those;
/// and each figure stands on its own line.
pub proof fn law_partial_figures_are_told(
    distance_km: Seq<char>,
    ascent_m: Seq<char>,
    descent_m: Seq<char>,
    minutes: Option<u64>,
    waypoints: nat,
    followed: nat,
    complete: bool,
)
    ensures
        ({
            let lines = track_said(
                distance_km,
                ascent_m,
                descent_m,
                minutes,
                waypoints,
                followed,
                complete,
            );
            &&& sounds(lines, Tone::Remark) <==> waypoints > 0 && !complete
            &&& lines[0].1 == "distance  "@ + distance_km + " km"@
            &&& lines[1].1 == "ascent    "@ + ascent_m + " m"@
            &&& lines[2].1 == "descent   "@ + descent_m + " m"@
            &&& lines[3].1 == "duration  "@ + track::duration_text(minutes)
            &&& waypoints >= 2 ==> lines[4].1 == "on trail  "@ + text::decimal(followed) + "/"@
                + text::decimal((waypoints - 1) as nat) + " legs"@
            &&& waypoints < 2 && complete ==> lines.len() == 4
        }),
{
    let head = seq![
        (Tone::Figure, "distance  "@ + distance_km + " km"@),
        (Tone::Figure, "ascent    "@ + ascent_m + " m"@),
        (Tone::Figure, "descent   "@ + descent_m + " m"@),
        (Tone::Figure, "duration  "@ + track::duration_text(minutes)),
    ];
    let legs = "on trail  "@ + text::decimal(followed) + "/"@ + text::decimal(
        (waypoints - 1) as nat,
    ) + " legs"@;
    let partial = "DEM still loading — figures are partial"@;
    let a = said_if(waypoints >= 2, Tone::Figure, legs);
    let b = said_if(waypoints > 0 && !complete, Tone::Remark, partial);
    lemma_sounds(head, a, Tone::Remark);
    lemma_sounds(head + a, b, Tone::Remark);
    lemma_sounds_if(waypoints >= 2, Tone::Figure, legs, Tone::Remark);
    lemma_sounds_if(waypoints > 0 && !complete, Tone::Remark, partial, Tone::Remark);
    assert(!sounds(head, Tone::Remark));
}

/// A graph without edges is remarked upon, and so is one whose climbs are still to
/// be read.
pub proof fn law_an_unfinished_graph_is_remarked_upon(p: Planner)
    ensures
        sounds(graph_said(p), Tone::Remark) <==> p.graph.shape().edges.len() == 0
            || !p.graph_elevated,
        p.graph.shape().edges.len() == 0 <==> !sounds(graph_said(p), Tone::Figure),
{
    let words = "reading climbs from the DEM"@;
    let head = seq![
        (
            Tone::Figure,
            "graph     "@ + text::decimal(p.graph.shape().nodes.len()) + " nodes · "@
                + text::decimal(p.graph.shape().edges.len()) + " edges"@,
        ),
    ];
    let empty = seq![(Tone::Remark, "Empty graph — place a point or load some trails"@)];
    assert(empty[0].0 == Tone::Remark);
    assert(head[0].0 == Tone::Figure);
    lemma_sounds(head, said_if(!p.graph_elevated, Tone::Remark, words), Tone::Remark);
    lemma_sounds(head, said_if(!p.graph_elevated, Tone::Remark, words), Tone::Figure);
    lemma_sounds_if(!p.graph_elevated, Tone::Remark, words, Tone::Remark);
    lemma_sounds_if(!p.graph_elevated, Tone::Remark, words, Tone::Figure);
    assert(!sounds(head, Tone::Remark));
}

/// What is said of a slope: the sector that it faces, and that it lies in the sun just
/// where it faces from east by south to west; flat ground faces nowhere.
pub proof fn law_a_sunny_slope_is_told(f: Facing)
    ensures
        facing_said(None) == seq![(Tone::Figure, "aspect     — (flat ground)"@)],
        facing_said(Some(f)).len() == 2,
        facing_said(Some(f))[0].1 == "aspect     "@ + terrain::sectors()[f.sector as int % 8]
            + " ("@ + f.deg@ + " deg)"@,
        !f.angle.nan() && 0x42b4_0000 <= f.angle.place() <= 0x4387_0000 ==> facing_said(
            Some(f),
        )[1].1 == "in the sun for much of the day"@,
        f.angle.nan() || f.angle.place() < 0x42b4_0000 || f.angle.place() > 0x4387_0000
            ==> facing_said(Some(f))[1].1 == "cold aspect, dries slowly and holds snow late"@,
{
}

/// What is said of a spot ends with its position and what that means.
pub proof fn law_a_spot_is_told_with_its_position(w: SpotWords)
    ensures
        ({
            let lines = spot_said(w);
            let n = lines.len() as int;
            let position = terrain::position_of(w.above);
            &&& lines[2].1 == "elevation  "@ + w.elevation_m@ + " m"@
            &&& lines[3].1 == "slope      "@ + w.slope_deg@ + " deg"@
            &&& lines[4].1 == "roughness  "@ + w.roughness_m@ + " m"@
            &&& w.facing is None ==> n == 8
            &&& w.facing is Some ==> n == 9
            &&& lines[n - 2].1 == "position   "@ + w.above_m@ + " m ("@ + position.name() + ")"@
            &&& lines[n - 1].1 == position.meaning()
        }),
{
}

/// What is said of the place under the cursor: where it is and how high, or that this
/// is not known yet, or nothing.
pub proof fn law_the_cursor_is_told(c: Cursor)
    ensures
        cursor_said(Some(c)).len() == 2,
        cursor_said(Some(c))[0].1 == "cursor  "@ + c.lat@ + ", "@ + c.lon@,
        c.elev_m matches Some(m) ==> cursor_said(Some(c))[1].1 == "elev    "@ + m@ + " m"@,
        c.elev_m is None ==> cursor_said(Some(c))[1].1 == "elev    ..."@,
        cursor_said(None)[0].1 == "cursor  —"@,
        cursor_said(None)[1].1 == "elev    —"@,
{
}

/// The figures that are told are those there are: zones and ways, nodes and edges, what
/// was reached and how far.
pub proof fn law_figures_are_told_as_they_are(
    s: StoreState,
    ways: nat,
    basin: Option<Seq<char>>,
    hint: Option<Seq<char>>,
    p: Planner,
    furthest_km: Seq<char>,
)
    ensures
        trails_said(s, ways, basin, hint)[0].1 == text::decimal(s.loaded.len()) + " zones · "@
            + text::decimal(ways) + " ways"@,
        basin matches Some(words) ==> trails_said(s, ways, basin, hint)[1].1 == words,
        s.failed.len() > 0 ==> trails_said(s, ways, basin, hint).last().1 == text::decimal(
            s.failed.len(),
        ) + " zone(s) failed"@,
        s.failed.len() == 0 && s.pending.len() + s.queue.len() > 0 ==> trails_said(
            s,
            ways,
            basin,
            hint,
        ).last().1 == text::decimal(s.pending.len() + s.queue.len()) + " zone(s) loading"@,
        p.graph.shape().edges.len() > 0 ==> graph_said(p)[0].1 == "graph     "@ + text::decimal(
            p.graph.shape().nodes.len(),
        ) + " nodes · "@ + text::decimal(p.graph.shape().edges.len()) + " edges"@,
        p.iso matches Some(iso) ==> {
            let lines = reach_said(p, true, true, false, furthest_km);
            &&& lines.len() == 2
            &&& lines[0].1 == "reached   "@ + text::decimal(reach::reached(iso.reach.costs()))
                + " nodes · "@ + text::decimal(iso.edges@.len()) + " stretches"@
            &&& lines[1].1 == "furthest  "@ + furthest_km + " km away"@
        },
{
}

/// A cache is told by what is at hand, on its way, given up and on the wire, in that
/// order.
pub proof fn law_a_cache_is_told_in_order(
    name: Seq<char>,
    ready: nat,
    loading: nat,
    failed: nat,
    on_wire: nat,
)
    ensures
        cache_said(name, ready, loading, failed, on_wire) == name + ("ready "@ + text::decimal(
            ready,
        )) + (" · loading "@ + text::decimal(loading)) + (" · failed "@ + text::decimal(failed)) + (
        " · on wire "@ + text::decimal(on_wire)),
{
    assert(cache_said(name, ready, loading, failed, on_wire) =~= name + ("ready "@ + text::decimal(
        ready,
    )) + (" · loading "@ + text::decimal(loading)) + (" · failed "@ + text::decimal(failed)) + (
    " · on wire "@ + text::decimal(on_wire)));
}

} // verus!
