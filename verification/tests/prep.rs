//! Building an archive.
use trackfinder::geo::{Bounds, LatLon};
use trackfinder::number::Real;
use trackfinder::prep::{
    json_escape, manifest_fragment, verify_index, verify_tiles, Collector, Defect, Place,
};
use trackfinder::trailfmt::{encode_tile, write_index, FormatError, TileId, TILE_ZOOM};

fn num(x: f64) -> Real {
    Real { bits: x.to_bits() }
}

fn place(lat: f64, lon: f64, tile: u32) -> Place {
    Place {
        at: LatLon::new(num(lat), num(lon)),
        quanta: ((lat * 1e6).round() as i64, (lon * 1e6).round() as i64),
        tile: TileId { x: tile, y: 7 },
    }
}

fn tags(list: &[(&str, &str)]) -> Vec<(String, String)> {
    list.iter().map(|(k, v)| (k.to_string(), v.to_string())).collect()
}

fn alps() -> Bounds {
    Bounds {
        south: num(43.95),
        west: num(5.35),
        north: num(46.45),
        east: num(7.75),
    }
}

fn collected() -> Collector {
    let mut c = Collector::new();
    assert!(c.add_way(
        1,
        &tags(&[("highway", "path"), ("name", "Balcon"), ("sac_scale", "alpine_hiking")]),
        vec![10, 11, 12],
    ));
    assert!(c.add_way(2, &tags(&[("highway", "track")]), vec![12, 13]));
    assert!(c.add_way(3, &tags(&[("highway", "path")]), vec![20, 21]));
    assert!(c.add_way(4, &tags(&[("highway", "path")]), vec![30, 31]));
    for (id, lat, lon, tile) in [
        (10, 45.90, 6.87, 5),
        (11, 45.91, 6.87, 5),
        (12, 45.92, 6.87, 4),
        (13, 45.93, 6.87, 4),
        (20, 48.85, 2.35, 1),
        (21, 48.86, 2.35, 1),
        (30, 45.0, 6.0, 2),
    ] {
        assert!(c.add_node(id, place(lat, lon, tile)));
    }
    c
}

#[test]
fn only_walkable_ways_are_kept_and_each_once() {
    let mut c = collected();
    assert_eq!(c.way_count(), 4);
    assert_eq!(c.node_count(), 8);
    assert!(!c.add_way(1, &tags(&[("highway", "path")]), vec![1, 2]), "seen before");
    assert!(!c.add_way(9, &tags(&[("highway", "motorway")]), vec![1, 2]));
    assert!(!c.add_way(9, &tags(&[("name", "x")]), vec![1, 2]));
    assert!(!c.add_way(9, &tags(&[("highway", "path")]), vec![1]));
    assert_eq!(c.way_count(), 4);
    assert!(!c.add_node(99, place(0.0, 0.0, 0)), "no way runs through it");
    assert_eq!(c.place_count(), 7);
}

#[test]
fn ways_go_into_the_tile_of_their_first_point() {
    let a = collected().assemble(&alps());
    assert_eq!((a.kept, a.outside, a.incomplete, a.points), (2, 1, 1, 5));
    assert_eq!(a.tiles.len(), 2);
    assert_eq!(a.tiles[0].tile, TileId { x: 4, y: 7 }, "tiles ascend");
    assert_eq!(a.tiles[1].tile, TileId { x: 5, y: 7 });
    let way = &a.tiles[1].ways[0];
    assert_eq!(way.id, 1);
    assert_eq!(way.kind, 1);
    assert_eq!(way.sac, 4);
    assert_eq!(way.name.as_deref(), Some("Balcon"));
    assert_eq!(way.shared, vec![None, None, Some(12)], "a node of two ways is a junction");
    assert_eq!(way.points[0], (45_900_000, 6_870_000));
    assert_eq!(a.tiles[0].ways[0].shared, vec![Some(12), None]);
}

#[test]
fn the_last_tag_counts() {
    let mut c = Collector::new();
    assert!(!c.add_way(
        1,
        &tags(&[("highway", "path"), ("highway", "motorway")]),
        vec![1, 2],
    ));
    assert!(c.add_way(
        1,
        &tags(&[("sac_scale", "hiking"), ("highway", "path"), ("sac_scale", "nonsense")]),
        vec![1, 2],
    ));
    c.add_node(1, place(45.0, 6.0, 3));
    c.add_node(2, place(45.0, 6.1, 3));
    assert_eq!(c.assemble(&alps()).tiles[0].ways[0].sac, 0);
}

#[test]
fn what_was_assembled_reads_back() {
    let a = collected().assemble(&alps());
    let blobs: Vec<Vec<u8>> = a.tiles.iter().map(|t| encode_tile(&t.ways)).collect();
    assert_eq!(verify_tiles(&blobs, a.kept, a.points), Ok(()));
    assert_eq!(verify_tiles(&blobs, a.kept + 1, a.points), Err(Defect::WaysLost));
    assert_eq!(verify_tiles(&blobs, a.kept, a.points + 1), Err(Defect::PointsLost));
    assert_eq!(
        verify_tiles(&vec![b"<html".to_vec()], 0, 0),
        Err(Defect::TileUnreadable(FormatError::BadMagic))
    );
    let ids: Vec<TileId> = a.tiles.iter().map(|t| t.tile).collect();
    let index = write_index(TILE_ZOOM, &ids);
    assert_eq!(verify_index(&index, TILE_ZOOM, 2).unwrap().tiles, ids);
    assert_eq!(verify_index(&index, 12, 2).err(), Some(Defect::WrongZoom));
    assert_eq!(verify_index(&index, TILE_ZOOM, 3).err(), Some(Defect::TilesMissing));
    assert_eq!(
        verify_index(&index[..9], TILE_ZOOM, 2).err(),
        Some(Defect::IndexUnreadable(FormatError::Truncated))
    );
}

#[test]
fn a_name_is_escaped() {
    assert_eq!(json_escape("a\"b\\c\nd"), "a\\\"b\\\\c\\nd");
    assert_eq!(json_escape("\u{1f}\u{0}x"), "\\u001f\\u0000x");
    assert_eq!(json_escape("Pyrénées"), "Pyrénées");
}

#[test]
fn a_fragment_is_one_line() {
    let line = manifest_fragment("Alpes \"du Nord\"", "alps", "43.95", "5.35", "46.45", "7.75");
    assert_eq!(
        line,
        "{\"name\":\"Alpes \\\"du Nord\\\"\",\"dir\":\"alps\",\"south\":43.95,\"west\":5.35,\"north\":46.45,\"east\":7.75}\n"
    );
    let whole = format!("{{\"regions\":[{line}]}}");
    let m = trackfinder::archive::parse_manifest(&whole).unwrap();
    assert_eq!(m.regions[0].name, "Alpes \"du Nord\"");
}
