//! Elevation tiles.
use trackfinder::dem::{
    decode_bil, read_bil, DemKey, DemStore, DEM_BYTES, DEM_ZOOM, MAX_DEM_REQUESTS,
};
use trackfinder::geo::TILE_PX;
use trackfinder::number::Single;

fn single(x: f32) -> Single {
    Single { bits: x.to_bits() }
}

fn raw(values: &[f32]) -> Vec<u8> {
    let mut raw = Vec::with_capacity(values.len() * 4);
    for v in values {
        raw.extend_from_slice(&v.to_le_bytes());
    }
    raw
}

fn zlib(values: &[f32]) -> Vec<u8> {
    miniz_oxide::deflate::compress_to_vec_zlib(&raw(values), 6)
}

#[test]
fn decode_accepts_already_inflated_bytes() {
    let mut values = vec![0.0f32; (TILE_PX * TILE_PX) as usize];
    values[1] = 2400.0;
    let raw = raw(&values);
    assert_eq!(raw.len(), DEM_BYTES);
    let tile = decode_bil(&raw).unwrap();
    assert_eq!(tile.sample(1, 0), Some(single(2400.0)));
}

#[test]
fn decode_roundtrip() {
    let mut values = vec![0.0f32; (TILE_PX * TILE_PX) as usize];
    values[0] = 1035.0;
    values[(TILE_PX * TILE_PX - 1) as usize] = 1827.5;
    let tile = decode_bil(&zlib(&values)).unwrap();
    assert_eq!(tile.values.len(), 65_536);
    assert_eq!(tile.sample(0, 0), Some(single(1035.0)));
    assert_eq!(tile.sample(255, 255), Some(single(1827.5)));
}

#[test]
fn nodata_is_rejected() {
    let mut values = vec![0.0f32; (TILE_PX * TILE_PX) as usize];
    values[42] = -99999.0;
    let tile = decode_bil(&zlib(&values)).unwrap();
    assert_eq!(tile.sample(42, 0), None);
}

#[test]
fn wrong_size_is_reported() {
    let err = decode_bil(&zlib(&[1.0, 2.0])).err().unwrap();
    assert!(err.contains("unexpected DEM size"), "{err}");
}

#[test]
fn raw_bytes_are_not_mistaken_for_data() {
    assert!(decode_bil(&[0u8; 1024]).is_err());
}

#[test]
fn bytes_that_do_not_inflate_say_so() {
    let err = decode_bil(&[0u8; 1024]).err().unwrap();
    assert!(err.starts_with("zlib inflate: "), "{err}");
    let err = read_bil(Err("cut".to_owned())).err().unwrap();
    assert_eq!(err, "zlib inflate: cut");
}

#[test]
fn what_is_no_number_is_rejected() {
    let mut values = vec![0.0f32; (TILE_PX * TILE_PX) as usize];
    values[0] = f32::NAN;
    values[1] = f32::INFINITY;
    values[2] = -999.0;
    let tile = decode_bil(&raw(&values)).unwrap();
    assert_eq!(tile.sample(0, 0), None);
    assert_eq!(tile.sample(1, 0), None);
    assert_eq!(tile.sample(2, 0), Some(single(-999.0)));
}

#[test]
fn keys_have_codes_of_their_own() {
    let a = DemKey { z: 14, col: 1, row: 2 };
    let b = DemKey { z: 14, col: 2, row: 1 };
    assert_ne!(a.code(), b.code());
    assert_ne!(a.code(), DemKey { z: 11, col: 1, row: 2 }.code());
}

/// Four pixels that straddle four tiles ask for all of them, one by one, and are
/// there once the tiles have come.
#[test]
fn corners_come_once_their_tiles_have() {
    let mut dem = DemStore::new();
    dem.begin_frame();
    let mut asked = 0;
    for _ in 0..10 {
        if let Some((a, b, c, d)) = dem.corners(255, 255, DEM_ZOOM) {
            assert_eq!(a, single(5.0));
            assert_eq!(b, single(5.0));
            assert_eq!(c, single(5.0));
            assert_eq!(d, single(5.0));
            assert_eq!(asked, 4);
            assert_eq!(dem.stats().0, 4);
            return;
        }
        for (key, desc) in dem.cache.take_requests() {
            asked += 1;
            assert!(desc.x <= 1 && desc.y <= 1 && desc.z == DEM_ZOOM);
            let values = vec![5.0f32; (TILE_PX * TILE_PX) as usize];
            dem.cache.receive(key, Ok(raw(&values)));
        }
        dem.begin_frame();
        dem.end_frame();
    }
    panic!("never there");
}

#[test]
fn requests_for_elevations_are_capped() {
    let mut dem = DemStore::new();
    dem.begin_frame();
    for k in 0..50i64 {
        assert!(dem.pixel(256 * k, 0, DEM_ZOOM).is_none());
    }
    assert_eq!(dem.in_flight(), MAX_DEM_REQUESTS);
}
