//! Reading trail tiles from static files.
use std::collections::HashSet;

use trackfinder::archive::manifest::read_manifest;
use trackfinder::archive::{
    file_reply, manifest_reply, parse_manifest, tiles_covering, Message, Request, TrailArchive, MANIFEST_FILE,
};
use trackfinder::geo::LatLon;
use trackfinder::graph::shape::stretches;
use trackfinder::graph::Graph;
use trackfinder::number::Real;
use trackfinder::trailfmt::{encode_tile, kind, write_index, ArchiveWay, TileId, INDEX_FILE, TILE_ZOOM};
use trackfinder::trails::network::Cell;
use trackfinder::trails::{TrailNetwork, WayKind};

const CHAMONIX: (f64, f64) = (45.92, 6.87);
const QUANTUM: f64 = 1e-6;

const MANIFEST: &str = r#"{"regions":[
        {"name":"Alpes du Nord","dir":"alps",
         "south":43.95,"west":5.35,"north":46.45,"east":7.75}
    ]}"#;

fn num(x: f64) -> Real {
    Real { bits: x.to_bits() }
}

fn f(x: Real) -> f64 {
    f64::from_bits(x.bits)
}

fn ll(lat: f64, lon: f64) -> LatLon {
    LatLon::new(num(lat), num(lon))
}

fn chamonix() -> LatLon {
    ll(CHAMONIX.0, CHAMONIX.1)
}

fn tile_of(lat: f64, lon: f64, zoom: u8) -> TileId {
    let n = (1u64 << zoom) as f64;
    let phi = lat.clamp(-85.051_128_779_806_59, 85.051_128_779_806_59).to_radians();
    let x = (lon + 180.0) / 360.0 * n;
    let y = (1.0 - (phi.tan() + 1.0 / phi.cos()).ln() / std::f64::consts::PI) / 2.0 * n;
    TileId {
        x: x.floor().clamp(0.0, n - 1.0) as u32,
        y: y.floor().clamp(0.0, n - 1.0) as u32,
    }
}

/// The corner tiles of a disc.
fn corners(center: (f64, f64), radius_m: f64) -> (TileId, TileId) {
    let dlat = radius_m / 111_132.0;
    let dlon = radius_m / (111_320.0 * center.0.to_radians().cos()).max(1.0);
    (
        tile_of((center.0 + dlat).min(85.0), (center.1 - dlon).max(-180.0), TILE_ZOOM),
        tile_of((center.0 - dlat).max(-85.0), (center.1 + dlon).min(180.0), TILE_ZOOM),
    )
}

fn disc(radius_m: f64) -> Vec<TileId> {
    let (nw, se) = corners(CHAMONIX, radius_m);
    tiles_covering(nw, se)
}

fn place(qlat: i64, qlon: i64) -> (LatLon, Cell) {
    let (lat, lon) = (qlat as f64 * QUANTUM, qlon as f64 * QUANTUM);
    (
        ll(lat, lon),
        ((lat / 0.002).floor() as i32, (lon / 0.002).floor() as i32),
    )
}

fn quanta(points: &[(f64, f64)]) -> Vec<(i64, i64)> {
    points
        .iter()
        .map(|p| ((p.0 / QUANTUM).round() as i64, (p.1 / QUANTUM).round() as i64))
        .collect()
}

#[test]
fn the_manifest_parses_and_locates() {
    let m = parse_manifest(MANIFEST).unwrap();
    assert_eq!(m.regions.len(), 1);
    assert_eq!(m.region_for(chamonix()).unwrap().dir, "alps");
    assert!(m.region_for(ll(48.85, 2.35)).is_none());
}

#[test]
fn the_manifest_ci_produces_parses() {
    let mut assembled = String::from(r#"{"regions":["#);
    assembled.push_str(
        r#"{"name":"Alpes françaises","dir":"alps","south":43.95,"west":5.35,"north":46.45,"east":7.75},"#,
    );
    assembled.push_str(
        r#"{"name":"Pyrénées","dir":"pyrenees","south":42.4,"west":-1.8,"north":43.3,"east":3.2}"#,
    );
    assembled.push_str("\n]}");
    let m = parse_manifest(&assembled).unwrap();
    assert_eq!(m.regions.len(), 2);
    assert_eq!(m.region_for(chamonix()).unwrap().dir, "alps");
    assert_eq!(m.region_for(ll(42.8, 0.15)).unwrap().dir, "pyrenees");
    assert_eq!(m.regions[0].name, "Alpes françaises");
    assert_eq!(f(m.regions[1].west), -1.8);
}

#[test]
fn a_broken_manifest_is_refused() {
    assert!(parse_manifest("not json").is_err());
    assert!(parse_manifest(r#"{"regions":[]}"#).is_err());
    assert!(parse_manifest(r#"{"nope":1}"#).is_err());
    assert!(parse_manifest(r#"{"regions":[{"name":"x"}]}"#).is_err());
    let inside_out = r#"{"regions":[{"name":"x","dir":"d","south":46.0,
                             "west":5.0,"north":44.0,"east":7.0}]}"#;
    assert!(
        parse_manifest(inside_out).is_err(),
        "an inside-out bbox would match nothing and explain nothing"
    );
}

#[test]
fn a_manifest_without_regions_says_so() {
    assert_eq!(
        parse_manifest(r#"{"regions":[]}"#).err().unwrap(),
        "manifest lists no region"
    );
    assert!(read_manifest(Err("cut".to_owned())).err().unwrap().ends_with("cut"));
}

#[test]
fn a_disc_is_covered_by_its_tiles() {
    let tiles = disc(30_000.0);
    assert!(
        (16..=49).contains(&tiles.len()),
        "{} tiles for a 30 km radius",
        tiles.len()
    );
    for (dlat, dlon) in [(0.0, 0.0), (0.26, 0.0), (-0.26, 0.0), (0.0, 0.38), (0.0, -0.38)] {
        let t = tile_of(CHAMONIX.0 + dlat, CHAMONIX.1 + dlon, TILE_ZOOM);
        assert!(tiles.contains(&t), "{dlat} {dlon}: {t:?} missing");
    }
}

#[test]
fn a_smaller_radius_asks_for_fewer_tiles() {
    let near = disc(5_000.0).len();
    let far = disc(30_000.0).len();
    assert!(near < far, "{near} vs {far}");
    assert!(near >= 1);
}

fn tile_with_a_junction() -> (TileId, Vec<u8>) {
    let shared_node = 1_842_665_301i64;
    let west = ArchiveWay {
        id: 10,
        kind: kind::PATH,
        sac: 2,
        name: Some("Sentier ouest".to_owned()),
        points: quanta(&[(45.900, 6.860), (45.900, 6.870)]),
        shared: vec![None, Some(shared_node)],
    };
    let north = ArchiveWay {
        id: 20,
        kind: kind::TRACK,
        sac: 0,
        name: None,
        points: quanta(&[(45.900, 6.870), (45.910, 6.870)]),
        shared: vec![Some(shared_node), None],
    };
    let tile = tile_of(45.90, 6.86, TILE_ZOOM);
    (tile, encode_tile(&[west, north]))
}

#[test]
fn a_tile_becomes_a_network_with_exactly_one_junction() {
    let (tile, blob) = tile_with_a_junction();
    let mut store = TrailArchive::new("unused/");
    let mut net = TrailNetwork::default();
    let arrived = vec![Message::Tile("alps".to_owned(), tile, Ok(blob))];
    assert!(store.pump(&arrived, &mut net, place), "the network must gain ways");
    assert_eq!(net.len(), 2);
    assert_eq!(store.stats().0, 1, "the tile is done with");

    let ids: Vec<i64> = net.ways().iter().flat_map(|w| w.nodes.clone()).collect();
    let distinct: HashSet<i64> = ids.iter().copied().collect();
    assert_eq!(ids.len(), 4);
    assert_eq!(distinct.len(), 3, "exactly one identity is shared: {ids:?}");
    assert_eq!(
        ids.iter().filter(|i| **i > 0).count(),
        2,
        "only the shared node keeps a real id: {ids:?}"
    );

    let lengths: Vec<Real> = stretches(&net).iter().map(|_| num(1.0)).collect();
    let graph = Graph::build(&net, &lengths);
    assert_eq!(graph.node_count(), 3);
    assert_eq!(graph.edges.len(), 2);

    let west = net.way_by_id(10).unwrap();
    assert_eq!(west.kind, WayKind::Path);
    assert_eq!(west.name.as_deref(), Some("Sentier ouest"));
    assert_eq!(west.sac_scale.as_deref(), Some("mountain_hiking"));
    assert!((f(west.points[0].lat) - 45.900).abs() < 1e-5);
}

/// A store that has read its manifest and an index with some tiles.
fn ready_store(tiles: &[TileId]) -> TrailArchive {
    let mut net = TrailNetwork::default();
    let mut store = TrailArchive::new("base/");
    let (nw, se) = corners(CHAMONIX, 1_000.0);
    let asked = store.ensure_area(chamonix(), nw, se);
    assert_eq!(asked.len(), 1);
    assert!(matches!(&asked[0], Request::Manifest(url) if *url == format!("base/{MANIFEST_FILE}")));
    store.pump(&vec![Message::Manifest(Ok(MANIFEST.to_owned()))], &mut net, place);
    assert!(store.ready());
    let asked = store.ensure_area(chamonix(), nw, se);
    assert_eq!(asked.len(), 1);
    assert!(matches!(&asked[0], Request::Index(dir, url)
        if dir == "alps" && *url == format!("base/alps/{INDEX_FILE}")));
    let index = write_index(TILE_ZOOM, tiles);
    store.pump(&vec![Message::Index("alps".to_owned(), Ok(index))], &mut net, place);
    store
}

#[test]
fn only_transport_failures_are_retried() {
    let (tile, _) = tile_with_a_junction();
    let mut net = TrailNetwork::default();

    let mut store = ready_store(&[tile]);
    let asked = store.ensure_area(ll(45.90, 6.86), tile, tile);
    assert_eq!(asked.len(), 1);
    assert_eq!(store.stats(), (0, 1, 1));
    let lost = vec![Message::Tile("alps".to_owned(), tile, Err("network down".to_owned()))];
    assert!(!store.pump(&lost, &mut net, place));
    assert_eq!(store.stats(), (0, 0, 1), "neither done with nor in flight");
    assert_eq!(store.ensure_area(ll(45.90, 6.86), tile, tile).len(), 1, "asked for again");

    let mut store = TrailArchive::new("unused/");
    let page = vec![Message::Tile("alps".to_owned(), tile, Ok(b"<!DOCTYPE html>".to_vec()))];
    assert!(!store.pump(&page, &mut net, place));
    assert_eq!(
        store.stats().0,
        1,
        "a tile that cannot decode will not decode on a retry either"
    );
    assert!(store.last_error().is_some());
}

#[test]
fn empty_ground_is_settled_without_a_request() {
    let mut store = ready_store(&[]);
    let (nw, se) = corners(CHAMONIX, 30_000.0);
    assert!(!store.area_ready(chamonix(), nw, se));
    assert!(store.ensure_area(chamonix(), nw, se).is_empty());
    let (settled, in_flight, _) = store.stats();
    assert!(settled > 0, "the empty tiles must be settled");
    assert_eq!(in_flight, 0, "and none of them requested");

    store.ensure_area(chamonix(), nw, se);
    assert_eq!(store.stats(), (settled, 0, 1));
    assert!(store.area_ready(chamonix(), nw, se));
}

#[test]
fn a_tile_is_asked_for_once() {
    let (tile, blob) = tile_with_a_junction();
    let mut net = TrailNetwork::default();
    let mut store = ready_store(&[tile]);
    let asked = store.ensure_area(ll(45.90, 6.86), tile, tile);
    assert!(matches!(&asked[0], Request::Tile(dir, t, url)
        if dir == "alps" && *t == tile && url.starts_with("base/alps/11/") && url.ends_with(".tft")));
    assert!(store.ensure_area(ll(45.90, 6.86), tile, tile).is_empty());
    assert!(store.pump(&vec![Message::Tile("alps".to_owned(), tile, Ok(blob))], &mut net, place));
    assert!(store.ensure_area(ll(45.90, 6.86), tile, tile).is_empty());
    assert!(store.area_ready(ll(45.90, 6.86), tile, tile));
}

#[test]
fn ground_outside_every_region_needs_nothing() {
    let mut store = ready_store(&[]);
    let (nw, se) = corners((48.85, 2.35), 5_000.0);
    assert!(!store.covers(ll(48.85, 2.35)));
    assert!(store.covers(chamonix()));
    assert!(store.ensure_area(ll(48.85, 2.35), nw, se).is_empty());
    assert_eq!(store.manifest().regions.len(), 1);
}

#[test]
fn a_refused_file_says_so() {
    assert_eq!(file_reply(true, 200, vec![1, 2]), Ok(vec![1, 2]));
    assert_eq!(file_reply(false, 404, vec![1]), Err("HTTP 404".to_owned()));
    assert_eq!(manifest_reply(true, 200, Some("x".to_owned())), Ok("x".to_owned()));
    assert_eq!(manifest_reply(false, 503, None), Err("HTTP 503".to_owned()));
    assert_eq!(manifest_reply(true, 200, None), Err("non-textual manifest".to_owned()));
}

#[test]
fn ways_that_are_there_already_are_no_gain() {
    let (tile, blob) = tile_with_a_junction();
    let mut store = TrailArchive::new("unused/");
    let mut net = TrailNetwork::default();
    let arrived = vec![Message::Tile("alps".to_owned(), tile, Ok(blob))];
    assert!(store.pump(&arrived, &mut net, place));
    assert!(!store.pump(&arrived, &mut net, place), "both ways are there already");
    assert_eq!(net.len(), 2);
    assert!(!store.pump(&vec![], &mut net, place));
}
