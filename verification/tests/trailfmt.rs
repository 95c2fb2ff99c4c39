//! The archive format.
use trackfinder::trailfmt::kind;
use trackfinder::trailfmt::{
    decode_tile, encode_tile, kind_from_highway, put_ivarint, put_uvarint, read_index,
    sac_from_tag, sac_label, tile_path, unzigzag, write_index, zigzag, ArchiveWay, FormatError,
    Index, Reader, TileId, INDEX_MAGIC, TILE_ZOOM,
};

const QUANTUM: f64 = 1e-6;

fn quanta(points: &[(f64, f64)]) -> Vec<(i64, i64)> {
    points
        .iter()
        .map(|p| ((p.0 / QUANTUM).round() as i64, (p.1 / QUANTUM).round() as i64))
        .collect()
}

fn way(id: i64, pts: &[(f64, f64)], shared: &[Option<i64>]) -> ArchiveWay {
    ArchiveWay {
        id,
        kind: 1,
        sac: 2,
        name: Some("Sentier des Aiguilles".to_owned()),
        points: quanta(pts),
        shared: shared.to_vec(),
    }
}

const SAMPLE_POINTS: [(f64, f64); 3] = [
    (45.900_000, 6.870_000),
    (45.900_450, 6.870_310),
    (45.901_020, 6.870_880),
];

fn sample() -> ArchiveWay {
    way(
        123_456_789,
        &SAMPLE_POINTS,
        &[Some(1_842_665_301), None, Some(9_874_112_006)],
    )
}

#[test]
fn zigzag_roundtrips_over_the_whole_range() {
    for v in [0i64, 1, -1, 63, -64, i32::MAX as i64, i64::MIN, i64::MAX] {
        assert_eq!(unzigzag(zigzag(v)), v, "{v}");
    }
}

#[test]
fn zigzag_keeps_small_numbers_small() {
    assert_eq!(zigzag(0), 0);
    assert_eq!(zigzag(-1), 1);
    assert_eq!(zigzag(1), 2);
    assert_eq!(zigzag(i64::MIN), u64::MAX);
    assert_eq!(zigzag(i64::MAX), u64::MAX - 1);
}

#[test]
fn varints_roundtrip() {
    let mut buf = Vec::new();
    let values = [0u64, 1, 127, 128, 300, u32::MAX as u64, u64::MAX];
    for v in values {
        put_uvarint(&mut buf, v);
    }
    let mut r = Reader::new(&buf);
    for v in values {
        assert_eq!(r.uvarint().unwrap(), v);
    }
}

#[test]
fn varint_bytes() {
    let mut buf = Vec::new();
    put_uvarint(&mut buf, 300);
    assert_eq!(buf, vec![0xac, 0x02]);
    let mut buf = Vec::new();
    put_ivarint(&mut buf, -3);
    assert_eq!(buf, vec![5]);
    assert_eq!(Reader::new(&buf).ivarint().unwrap(), -3);
}

#[test]
fn a_number_that_never_ends_is_refused() {
    let endless = [0xffu8; 12];
    assert_eq!(Reader::new(&endless).uvarint().unwrap_err(), FormatError::Truncated);
    let cut = [0x80u8];
    assert_eq!(Reader::new(&cut).uvarint().unwrap_err(), FormatError::Truncated);
}

#[test]
fn a_reader_takes_what_is_there() {
    let bytes = [1u8, 2, 3, 4, 5];
    let mut r = Reader::new(&bytes);
    assert_eq!(r.u8().unwrap(), 1);
    assert_eq!(r.u32le().unwrap(), 0x0504_0302);
    assert_eq!(r.remaining(), 0);
    assert_eq!(r.take(1).unwrap_err(), FormatError::Truncated);
    assert_eq!(r.u8().unwrap_err(), FormatError::Truncated);
}

#[test]
fn a_tile_roundtrips_within_the_quantum() {
    let blob = encode_tile(&[sample()]);
    let back = decode_tile(&blob).unwrap();
    assert_eq!(back.len(), 1);
    let (a, b) = (&sample(), &back[0]);
    assert_eq!(a.id, b.id);
    assert_eq!(a.kind, b.kind);
    assert_eq!(a.sac, b.sac);
    assert_eq!(a.name, b.name);
    assert_eq!(a.shared, b.shared);
    for (p, q) in SAMPLE_POINTS.iter().zip(&b.points) {
        let (lat, lon) = (q.0 as f64 * QUANTUM, q.1 as f64 * QUANTUM);
        assert!((p.0 - lat).abs() <= QUANTUM, "lat {} vs {}", p.0, lat);
        assert!((p.1 - lon).abs() <= QUANTUM, "lon {} vs {}", p.1, lon);
    }
}

#[test]
fn a_way_without_a_name_costs_one_byte() {
    let mut w = sample();
    w.name = None;
    let named = encode_tile(&[sample()]).len();
    let bare = encode_tile(&[w.clone()]).len();
    assert_eq!(named - bare, "Sentier des Aiguilles".len());
    assert_eq!(decode_tile(&encode_tile(&[w])).unwrap()[0].name, None);
}

#[test]
fn misaligned_ways_never_reach_the_wire() {
    let bad = way(1, &[(45.0, 6.0), (45.1, 6.1)], &[Some(1)]);
    assert!(!bad.is_valid());
    assert_eq!(decode_tile(&encode_tile(&[bad])).unwrap().len(), 0);

    let too_short = way(2, &[(45.0, 6.0)], &[None]);
    assert!(!too_short.is_valid());
    assert_eq!(decode_tile(&encode_tile(&[too_short])).unwrap().len(), 0);
}

#[test]
fn truncation_is_an_error_not_garbage() {
    let blob = encode_tile(&[sample()]);
    for cut in 1..blob.len() {
        match decode_tile(&blob[..cut]) {
            Err(FormatError::Truncated | FormatError::Misaligned) => {}
            Err(e) => panic!("cut at {cut}: unexpected {}", e.message()),
            Ok(ways) => assert!(
                ways.is_empty(),
                "cut at {cut} produced a way out of thin air: {ways:?}"
            ),
        }
    }
}

#[test]
fn every_cut_is_truncated() {
    let blob = encode_tile(&[sample(), sample()]);
    for cut in 0..blob.len() {
        assert_eq!(decode_tile(&blob[..cut]).unwrap_err(), FormatError::Truncated);
    }
}

#[test]
fn the_index_lists_and_bisects() {
    let tiles = vec![
        TileId { x: 5, y: 9 },
        TileId { x: 1, y: 2 },
        TileId { x: 5, y: 1 },
        TileId { x: 1, y: 2 },
    ];
    let index = read_index(&write_index(11, &tiles)).unwrap();
    assert_eq!(index.zoom, 11);
    let keys: Vec<(u32, u32)> = index.tiles.iter().map(|t| (t.x, t.y)).collect();
    assert_eq!(keys, vec![(1, 2), (5, 1), (5, 9)], "sorted and deduplicated");
    for t in &index.tiles {
        assert!(index.has(*t));
    }
    assert!(!index.has(TileId { x: 42, y: 42 }));
}

#[test]
fn an_index_without_tiles_lists_none() {
    let index = Index::default();
    assert!(!index.has(TileId { x: 0, y: 0 }));
    assert_eq!(write_index(11, &[]).len(), 16);
}

#[test]
fn the_index_stays_tiny() {
    let tiles: Vec<TileId> = (0..228).map(|i| TileId { x: 1000 + i, y: 700 }).collect();
    let bytes = write_index(TILE_ZOOM, &tiles).len();
    assert!(bytes < 4096, "{bytes} bytes for 228 tiles");
    assert_eq!(bytes, 16 + 8 * 228);
}

#[test]
fn a_tile_has_a_conventional_path() {
    assert_eq!(tile_path(11, TileId { x: 1063, y: 729 }), "11/1063/729.tft");
}

#[test]
fn the_two_files_are_told_apart() {
    let tile = encode_tile(&[sample()]);
    let index = write_index(11, &[TileId { x: 1, y: 1 }]);
    assert_eq!(read_index(&tile).unwrap_err(), FormatError::BadMagic);
    assert_eq!(decode_tile(&index).unwrap_err(), FormatError::BadMagic);
    let not_found = b"<!DOCTYPE html><html><title>404</title></html>";
    assert_eq!(decode_tile(not_found).unwrap_err(), FormatError::BadMagic);
    assert_eq!(read_index(not_found).unwrap_err(), FormatError::BadMagic);
}

#[test]
fn a_foreign_file_is_refused() {
    assert_eq!(
        read_index(b"not an index at all").unwrap_err(),
        FormatError::BadMagic
    );
    assert_eq!(read_index(&INDEX_MAGIC).unwrap_err(), FormatError::Truncated);
    let mut index = write_index(11, &[TileId { x: 0, y: 0 }]);
    index[9] = 99;
    assert_eq!(read_index(&index).unwrap_err(), FormatError::BadVersion(99));
    let mut tile = encode_tile(&[sample()]);
    tile[4] = 99;
    assert_eq!(decode_tile(&tile).unwrap_err(), FormatError::BadVersion(99));
}

#[test]
fn an_empty_tile_is_recognisable() {
    let empty = encode_tile(&[]);
    assert_eq!(empty.len(), 6, "magic, version, and a zero count");
    assert!(decode_tile(&empty).unwrap().is_empty());
    assert!(encode_tile(&[sample()]).len() > empty.len());
}

#[test]
fn node_identity_is_global_not_per_archive() {
    let alps = way(
        1,
        &[(45.9, 6.87), (45.91, 6.88)],
        &[Some(1_842_665_301), Some(1_842_665_302)],
    );
    let pyrenees = way(
        2,
        &[(42.8, 0.15), (42.81, 0.16)],
        &[Some(4_411_009_877), Some(4_411_009_878)],
    );
    let a = decode_tile(&encode_tile(&[alps])).unwrap();
    let p = decode_tile(&encode_tile(&[pyrenees])).unwrap();
    let ids_a: Vec<i64> = a[0].shared.iter().flatten().copied().collect();
    let ids_p: Vec<i64> = p[0].shared.iter().flatten().copied().collect();
    assert!(
        ids_a.iter().all(|x| !ids_p.contains(x)),
        "identities collide across archives: {ids_a:?} vs {ids_p:?}"
    );
    assert!(ids_p.iter().any(|id| *id > u32::MAX as i64));
}

#[test]
fn the_class_vocabulary_is_stable() {
    assert_eq!(kind_from_highway("path"), Some(kind::PATH));
    assert_eq!(kind_from_highway("bridleway"), Some(kind::PATH));
    assert_eq!(kind_from_highway("residential"), Some(kind::ROAD));
    assert_eq!(kind_from_highway("motorway"), None, "not walkable, not carried");
    assert_eq!(kind_from_highway(""), None);
    assert!(kind::CYCLEWAY <= 0x0f && sac_from_tag("difficult_alpine_hiking") <= 0x0f);
    assert_eq!(sac_from_tag("mountain_hiking"), 2);
    assert_eq!(sac_from_tag("nonsense"), 0);
    for tag in [
        "hiking",
        "mountain_hiking",
        "demanding_mountain_hiking",
        "alpine_hiking",
        "demanding_alpine_hiking",
        "difficult_alpine_hiking",
    ] {
        assert_eq!(sac_label(sac_from_tag(tag)), Some(tag));
    }
    assert_eq!(sac_label(0), None);
}

#[test]
fn kind_and_sac_share_a_byte_without_collision() {
    for k in 0..=15u8 {
        for sac in 0..=15u8 {
            let mut w = sample();
            w.kind = k;
            w.sac = sac;
            let back = &decode_tile(&encode_tile(&[w])).unwrap()[0];
            assert_eq!((back.kind, back.sac), (k, sac));
        }
    }
}

#[test]
fn bytes_per_point_beat_overpass_by_an_order_of_magnitude() {
    let mut points = Vec::new();
    let mut shared = Vec::new();
    for i in 0..200 {
        points.push((45.9 + i as f64 * 0.000_225, 6.87 + i as f64 * 0.000_160));
        shared.push(if i == 0 || i == 199 {
            Some(1_842_665_301 + i as i64)
        } else {
            None
        });
    }
    let w = ArchiveWay {
        id: 123_456_789,
        kind: 1,
        sac: 0,
        name: None,
        points: quanta(&points),
        shared,
    };
    let bytes = encode_tile(&[w]).len();
    let per_point = bytes as f64 / 200.0;
    println!("{per_point:.2} bytes/point ({bytes} bytes for 200 points)");
    assert!(
        per_point < 8.0,
        "{per_point:.1} bytes/point: a JSON answer costs about 80"
    );
}

/// A name of bytes that are no text comes back with replacement characters.
#[test]
fn a_broken_name_is_replaced() {
    let mut w = sample();
    w.name = Some("ab".to_owned());
    let mut blob = encode_tile(&[w]);
    let at = blob.windows(2).position(|p| p == b"ab").unwrap();
    blob[at] = 0xff;
    let back = decode_tile(&blob).unwrap();
    assert_eq!(back[0].name.as_deref(), Some("\u{fffd}b"));
}

#[test]
fn a_name_with_accents_comes_back() {
    let mut w = sample();
    w.name = Some("Crête du Géant".to_owned());
    let back = decode_tile(&encode_tile(&[w])).unwrap();
    assert_eq!(back[0].name.as_deref(), Some("Crête du Géant"));
}

#[test]
fn every_error_has_words() {
    for e in [
        FormatError::BadMagic,
        FormatError::BadVersion(7),
        FormatError::Truncated,
        FormatError::Misaligned,
    ] {
        assert!(!e.message().is_empty());
    }
    assert!(FormatError::BadVersion(7).message().contains('7'));
}

#[test]
fn a_tile_that_is_listed_twice_is_found() {
    let at = |x: u32, y: u32| TileId { x, y };
    let index = Index {
        zoom: 11,
        tiles: vec![at(1, 2), at(1, 2), at(3, 0), at(3, 0), at(3, 7)],
    };
    for t in &index.tiles {
        assert!(index.has(*t));
    }
    assert!(!index.has(at(3, 1)));
}

#[test]
fn a_name_that_is_not_text_is_still_a_name() {
    let mut named = way(1, &[(45.0, 6.0), (45.1, 6.0)], &[None, None]);
    named.name = Some("ab".to_owned());
    let mut blob = encode_tile(&[named]);
    let at = blob.windows(2).position(|w| w == b"ab").unwrap();
    blob[at] = 0xff;
    blob[at + 1] = 0xfe;
    let name = decode_tile(&blob).unwrap()[0].name.clone().unwrap();
    assert_eq!(name, "\u{fffd}\u{fffd}");
}
