//! What the panel says, what is drawn, and what a change sets off.
use trackfinder::dem::DemStore;
use trackfinder::geo::{Bounds, LatLon};
use trackfinder::graph::shape::stretches;
use trackfinder::graph::CostMs;
use trackfinder::map::TileRenderer;
use trackfinder::number::{Real, Single};
use trackfinder::planner::panel::{
    debug_lines, isochrone_lines, spot_lines, track_lines, trail_lines, view_lines, walk_lines,
    zoom_limit, Cursor, Facing, Line, SpotWords, Tone, TrackWords,
};
use trackfinder::planner::{
    click_on_map, strips_in_view, ways_in_view, Basin, PendingClick, Planner,
};
use trackfinder::tiles::RasterLayer;
use trackfinder::track::{Track, Waypoint};
use trackfinder::trails::{Snap, TrailNetwork, TrailStore, Way, WayKind, ZoneKey};

fn num(x: f64) -> Real {
    Real { bits: x.to_bits() }
}

fn single(x: f32) -> Single {
    Single { bits: x.to_bits() }
}

fn ll(lat: f64, lon: f64) -> LatLon {
    LatLon::new(num(lat), num(lon))
}

fn window(south: f64, west: f64, north: f64, east: f64) -> Bounds {
    Bounds {
        south: num(south),
        west: num(west),
        north: num(north),
        east: num(east),
    }
}

fn add_way(net: &mut TrailNetwork, id: i64, nodes: &[i64], pts: &[(f64, f64)]) {
    let points: Vec<LatLon> = pts.iter().map(|(a, b)| ll(*a, *b)).collect();
    let bounds = Bounds::around(&points);
    let cells = vec![(0, 0); points.len()];
    net.insert(
        Way {
            id,
            kind: WayKind::Path,
            name: None,
            nodes: nodes.to_vec(),
            points,
            sac_scale: None,
            bounds,
        },
        &cells,
    );
}

/// Two ways, end to end, and one far from them.
fn network() -> TrailNetwork {
    let mut net = TrailNetwork::default();
    add_way(&mut net, 10, &[1, 2, 3], &[(45.0, 6.0), (45.0, 6.1), (45.0, 6.2)]);
    add_way(&mut net, 20, &[3, 4], &[(45.0, 6.2), (45.0, 6.3)]);
    add_way(&mut net, 30, &[8, 9], &[(46.0, 7.0), (46.0, 7.1)]);
    net
}

fn snap_on(way_id: i64, seg: usize, pos: LatLon) -> Snap {
    Snap {
        way_id,
        seg,
        t: num(0.0),
        pos,
        dist_m: num(3.0),
    }
}

/// A planner over the network, with an isochrone from its first point on.
fn planned(net: &TrailNetwork, track: &mut Track) -> Planner {
    let mut p = Planner::new();
    p.network_changed(track);
    let lengths = vec![num(1000.0); stretches(net).len()];
    assert!(p.rebuild(net, &lengths));
    track.push(Waypoint::snapped(snap_on(10, 0, ll(45.0, 6.0))));
    let costs: Vec<(CostMs, CostMs)> = vec![(100, 100); p.graph.edge_count()];
    assert!(p.refresh_isochrone(
        true,
        track,
        net,
        1_000,
        &costs,
        |_: u32, _: Snap| (0, 100),
        |_: LatLon, _: LatLon| num(2_000.0),
    ));
    p
}

fn told(lines: &[Line]) -> Vec<(Tone, &str)> {
    lines.iter().map(|l| (l.tone, l.text.as_str())).collect()
}

fn zone(lat: i32, lon: i32) -> ZoneKey {
    ZoneKey { level: 0, lat, lon }
}

#[test]
fn a_layer_past_its_zoom_says_so() {
    assert_eq!(zoom_limit(RasterLayer::Slopes, 17), None);
    assert_eq!(zoom_limit(RasterLayer::Slopes, 18).as_deref(), Some("(<= z17)"));
    assert_eq!(zoom_limit(RasterLayer::PlanIgn, 19), None);
}

#[test]
fn the_trails_are_counted() {
    let mut store = TrailStore::new(3);
    let lines = trail_lines(&store, &None, "", true, false, 12);
    assert_eq!(
        told(&lines),
        vec![
            (Tone::Figure, "0 zones · 0 ways"),
            (Tone::Remark, "zoom in to z13 to load trails automatically"),
        ]
    );

    store.ensure(zone(1, 1), zone(0, 0), 0);
    let basin = Some(Basin::new(ll(45.0, 6.0)));
    let lines = trail_lines(&store, &basin, "5", true, true, 12);
    assert_eq!(
        told(&lines),
        vec![
            (Tone::Figure, "0 zones · 0 ways"),
            (Tone::Figure, "basin 0 zones · 5 km around the last point · growing"),
            (Tone::Busy, "1 zone(s) loading"),
        ]
    );

    let mut alone = TrailStore::new(1);
    alone.ensure(zone(1, 1), zone(0, 0), 0);
    alone.take_requests();
    alone.pump(&vec![(zone(1, 1), 0, Err("down".to_owned()))], 1, |_: LatLon| (0, 0));
    let lines = trail_lines(&alone, &None, "", false, false, 12);
    assert_eq!(
        told(&lines),
        vec![
            (Tone::Figure, "0 zones · 0 ways"),
            (Tone::Failure, "1 zone(s) failed"),
        ]
    );
}

#[test]
fn the_isochrone_is_summed_up() {
    let empty = Planner::new();
    assert_eq!(
        told(&isochrone_lines(&empty, false, true, false, "0.0")),
        vec![(Tone::Remark, "Empty graph — place a point or load some trails")]
    );
    assert_eq!(
        told(&isochrone_lines(&empty, true, true, false, "0.0"))[1],
        (Tone::Remark, "last point is off the graph")
    );
    assert_eq!(isochrone_lines(&empty, true, false, false, "0.0").len(), 1);

    let net = network();
    let mut track = Track::default();
    let p = planned(&net, &mut track);
    assert_eq!(
        told(&isochrone_lines(&p, true, true, true, "2.0")),
        vec![
            (Tone::Figure, "graph     5 nodes · 3 edges"),
            (Tone::Remark, "reading climbs from the DEM"),
            (Tone::Figure, "reached   3 nodes · 2 stretches"),
            (Tone::Figure, "furthest  2.0 km away"),
            (
                Tone::Caution,
                "! trails still loading — reach shown is a lower bound",
            ),
        ]
    );
    assert_eq!(isochrone_lines(&p, true, true, false, "2.0").len(), 4);
}

#[test]
fn the_cursor_is_described() {
    let gone = view_lines("45.00000", "6.00000", &None);
    assert_eq!(
        told(&gone),
        vec![
            (Tone::Figure, "centre  45.00000, 6.00000"),
            (Tone::Figure, "cursor  —"),
            (Tone::Figure, "elev    —"),
        ]
    );
    let mut cursor = Cursor {
        lat: "45.10000".to_owned(),
        lon: "6.20000".to_owned(),
        elev_m: None,
    };
    let waiting = view_lines("0", "0", &Some(cursor.clone()));
    assert_eq!(waiting[1].text, "cursor  45.10000, 6.20000");
    assert_eq!(waiting[2].text, "elev    ...");
    cursor.elev_m = Some("1834".to_owned());
    assert_eq!(view_lines("0", "0", &Some(cursor))[2].text, "elev    1834 m");
}

#[test]
fn too_heavy_a_pack_is_warned_of() {
    assert_eq!(
        told(&walk_lines("0.88", "15.0", false)),
        vec![(Tone::Label, "speed factor 0.88 · load limit 15.0 kg")]
    );
    let heavy = walk_lines("0.88", "15.0", true);
    assert_eq!(heavy[1].tone, Tone::Warning);
    assert_eq!(heavy[1].text, "! pack over 20% of body weight");
}

#[test]
fn the_track_is_summed_up() {
    let net = network();
    let words = TrackWords {
        distance_km: "1.25".to_owned(),
        ascent_m: "80".to_owned(),
        descent_m: "20".to_owned(),
    };
    let mut track = Track::default();
    assert_eq!(
        told(&track_lines(&track, &net, &words, Some(95))),
        vec![
            (Tone::Figure, "distance  1.25 km"),
            (Tone::Figure, "ascent    80 m"),
            (Tone::Figure, "descent   20 m"),
            (Tone::Figure, "duration  1 h 35"),
        ]
    );
    track.push(Waypoint::snapped(snap_on(10, 0, ll(45.0, 6.0))));
    track.push(Waypoint::snapped(snap_on(10, 1, ll(45.0, 6.15))));
    track.push(Waypoint::free(ll(45.5, 6.5)));
    let lines = track_lines(&track, &net, &words, None);
    assert_eq!(lines[3].text, "duration  —");
    assert_eq!(lines[4].text, "on trail  1/2 legs");
    assert_eq!(
        told(&lines)[5],
        (Tone::Remark, "DEM still loading — figures are partial")
    );
}

#[test]
fn the_spot_is_described() {
    assert_eq!(
        told(&spot_lines(false, &None)),
        vec![(Tone::Remark, "Place a point: it becomes the bivouac candidate.")]
    );
    assert_eq!(
        told(&spot_lines(true, &None)),
        vec![(Tone::Busy, "reading the DEM...")]
    );
    let mut words = SpotWords {
        elevation_m: "2100".to_owned(),
        slope_deg: "4.2".to_owned(),
        roughness_m: "0.3".to_owned(),
        facing: Some(Facing {
            sector: 4,
            angle: single(180.0),
            deg: "180".to_owned(),
        }),
        above: single(25.0),
        above_m: "+25".to_owned(),
    };
    let lines = spot_lines(true, &Some(words.clone()));
    assert_eq!(
        told(&lines),
        vec![
            (Tone::Label, "Chance of flat ground"),
            (
                Tone::Remark,
                "A 5 m DEM cannot see a two-metre terrace. This points at where to look, it is not a verdict.",
            ),
            (Tone::Figure, "elevation  2100 m"),
            (Tone::Figure, "slope      4.2 deg"),
            (Tone::Figure, "roughness  0.3 m"),
            (Tone::Figure, "aspect     S (180 deg)"),
            (Tone::Remark, "in the sun for much of the day"),
            (Tone::Figure, "position   +25 m (ridge)"),
            (Tone::Remark, "very exposed to wind"),
        ]
    );
    words.facing = Some(Facing {
        sector: 0,
        angle: single(0.0),
        deg: "0".to_owned(),
    });
    assert_eq!(
        spot_lines(true, &Some(words.clone()))[6].text,
        "cold aspect, dries slowly and holds snow late"
    );
    words.facing = None;
    let flat = spot_lines(true, &Some(words));
    assert_eq!(flat[5].text, "aspect     — (flat ground)");
    assert_eq!(flat.len(), 8);
}

#[test]
fn the_debug_lines_name_the_instance() {
    let mut tiles: TileRenderer<u8> = TileRenderer::new();
    tiles.painted = 7;
    tiles.fallbacks = 2;
    let dem = DemStore::new();
    let error = Some("timeout".to_owned());
    let lines = debug_lines(&tiles, &dem, "3.4", &Track::default(), "overpass.example", &error);
    assert_eq!(
        told(&lines),
        vec![
            (
                Tone::Figure,
                "tiles   ready 0 · loading 0 · failed 0 · on wire 0/16",
            ),
            (Tone::Figure, "painted 7 · parent fallbacks 2"),
            (
                Tone::Figure,
                "DEM     ready 0 · loading 0 · failed 0 · on wire 0",
            ),
            (Tone::Figure, "scale   3.4 m/px"),
            (Tone::Figure, "track points 0"),
            (Tone::Figure, "trails  via overpass.example"),
            (Tone::Failure, "Overpass: timeout"),
        ]
    );
    let quiet = debug_lines(&tiles, &dem, "3.4", &Track::default(), "x", &None);
    assert_eq!(quiet.len(), 6);
}

#[test]
fn a_click_snaps_or_stays_where_it_is() {
    let mut click = PendingClick::new();
    let mut track = Track::default();
    let mut trails = TrailStore::new(3);
    let at = ll(45.0, 6.0);
    click.say("something".to_owned());
    click_on_map(
        &mut click, &mut track, &mut trails, true, at, zone(5, 6), zone(1, 1), 0,
    );
    assert_eq!(click.at, Some(at));
    assert!(click.status.is_none());
    assert!(track.waypoints.is_empty(), "a click that snaps has to wait");
    assert_eq!(trails.take_requests(), vec![(zone(5, 6), 0)]);

    let mut trails = TrailStore::new(3);
    let mut click = PendingClick::new();
    click_on_map(
        &mut click, &mut track, &mut trails, false, at, zone(5, 6), zone(1, 1), 0,
    );
    assert!(click.at.is_none());
    assert_eq!(track.waypoints.len(), 1);
    assert_eq!(track.waypoints[0].pos, at);
    assert!(track.waypoints[0].snap.is_none());
    assert!(!trails.is_waiting());
}

#[test]
fn a_change_makes_the_isochrone_stale() {
    let mut p = Planner::new();
    let mut track = Track::default();
    p.reach_changed();
    assert!(p.iso_dirty && !p.graph_dirty);

    let mut p = Planner::new();
    track.push(Waypoint::free(ll(45.0, 6.0)));
    track.push(Waypoint::free(ll(45.1, 6.0)));
    track.push(Waypoint::free(ll(45.2, 6.0)));
    p.drop_last(&mut track);
    assert_eq!(track.waypoints.len(), 2);
    assert!(p.iso_dirty);

    let mut p = Planner::new();
    p.drop_all(&mut track);
    assert!(track.waypoints.is_empty() && p.iso_dirty);
    p.drop_last(&mut track);
    assert!(track.waypoints.is_empty());

    let mut p = Planner::new();
    let mut track = Track::default();
    track.dirty = false;
    p.network_changed(&mut track);
    assert!(track.dirty && p.graph_dirty && !p.iso_dirty);
}

#[test]
fn only_what_is_in_view_is_drawn() {
    let net = network();
    let here = window(44.9, 5.9, 45.1, 6.25);
    assert_eq!(ways_in_view(&net, here, 12), vec![0, 1]);
    assert!(ways_in_view(&net, here, 11).is_empty(), "nothing is drawn from afar");
    assert_eq!(ways_in_view(&net, window(45.9, 6.9, 46.1, 7.2), 15), vec![2]);

    let mut track = Track::default();
    let p = planned(&net, &mut track);
    let iso = p.iso.as_ref().unwrap();
    let strips = strips_in_view(iso, &p.graph, &net, here);
    assert_eq!(strips.len(), 2);
    assert_eq!(strips[0].points, vec![ll(45.0, 6.0), ll(45.0, 6.1), ll(45.0, 6.2)]);
    assert_eq!(strips[0].cost_ms, 100);
    assert_eq!(strips[1].points, vec![ll(45.0, 6.2), ll(45.0, 6.3)]);
    assert_eq!(strips[1].cost_ms, 200);
    let there = window(45.9, 6.9, 46.1, 7.2);
    assert!(strips_in_view(iso, &p.graph, &net, there).is_empty());
}
