//! Map tiles: addresses, replies, and the cache.
use trackfinder::tiles::source::tile_reply;
use trackfinder::tiles::{Dataset, HttpTileSource, RasterLayer, TileCache, TileDesc};

#[test]
fn planign_base_map_url() {
    let s = HttpTileSource::default();
    let url = s.url(TileDesc {
        dataset: Dataset::Raster(RasterLayer::PlanIgn),
        z: 14,
        x: 8504,
        y: 5833,
    });
    assert_eq!(
        url,
        "https://data.geopf.fr/wmts?SERVICE=WMTS&VERSION=1.0.0&REQUEST=GetTile\
&LAYER=GEOGRAPHICALGRIDSYSTEMS.PLANIGNV2&STYLE=normal&TILEMATRIXSET=PM\
&TILEMATRIX=14&TILEROW=5833&TILECOL=8504&FORMAT=image/png"
    );
}

#[test]
fn dem_url() {
    let s = HttpTileSource::default();
    let url = s.url(TileDesc {
        dataset: Dataset::Elevation,
        z: 14,
        x: 17010,
        y: 4012,
    });
    assert_eq!(
        url,
        "https://data.geopf.fr/wmts?SERVICE=WMTS&VERSION=1.0.0&REQUEST=GetTile\
&LAYER=ELEVATION.ELEVATIONGRIDCOVERAGE.HIGHRES&STYLE=normal&TILEMATRIXSET=WGS84G\
&TILEMATRIX=14&TILEROW=4012&TILECOL=17010&FORMAT=image/x-bil;bits=32"
    );
}

fn raster(x: u32) -> TileDesc {
    TileDesc {
        dataset: Dataset::Raster(RasterLayer::PlanIgn),
        z: 14,
        x,
        y: 0,
    }
}

/// Answers every request on the spot.
fn answer<V>(cache: &mut TileCache<u32, V>) {
    for (key, _) in cache.take_requests() {
        cache.receive(key, Ok(vec![1, 2, 3]));
    }
}

#[test]
fn concurrent_requests_are_capped() {
    let mut cache: TileCache<u32, ()> = TileCache::new(100, 4);

    cache.tick();
    for i in 0..50u32 {
        assert!(!cache.ensure(&i, raster(i)));
    }
    assert_eq!(cache.in_flight(), 4);
    assert_eq!(cache.take_requests().len(), 4, "the cap must hold");

    cache.tick();
    for i in 0..50u32 {
        cache.ensure(&i, raster(i));
    }
    assert_eq!(cache.take_requests().len(), 0, "a hung request must not be re-sent");
}

#[test]
fn one_tile_asked_four_times_is_fetched_once() {
    let mut cache: TileCache<u32, ()> = TileCache::new(100, 8);
    cache.tick();
    for _ in 0..4 {
        cache.ensure(&7u32, raster(7));
    }
    assert_eq!(cache.take_requests().len(), 1);
}

#[test]
fn freed_slots_let_the_rest_through() {
    let mut cache: TileCache<u32, usize> = TileCache::new(100, 4);

    cache.tick();
    for i in 0..50u32 {
        cache.ensure(&i, raster(i));
    }
    assert_eq!(cache.in_flight(), 4);
    answer(&mut cache);

    cache.pump(100, |_: &u32, b: &[u8]| Ok(b.len()));
    assert_eq!(cache.in_flight(), 0);
    assert_eq!(cache.stats().0, 4, "four tiles decoded");

    cache.tick();
    for i in 0..50u32 {
        cache.ensure(&i, raster(i));
    }
    assert_eq!(cache.in_flight(), 4, "the next four went out");
    answer(&mut cache);
    cache.pump(100, |_: &u32, b: &[u8]| Ok(b.len()));
    assert_eq!(cache.stats().0, 8);
}

#[test]
fn the_decode_budget_defers_rather_than_drops() {
    let mut cache: TileCache<u32, usize> = TileCache::new(100, 16);
    cache.tick();
    for i in 0..6u32 {
        cache.ensure(&i, raster(i));
    }
    answer(&mut cache);
    cache.pump(2, |_: &u32, b: &[u8]| Ok(b.len()));
    assert_eq!(cache.stats().0, 2, "only the budget was decoded");
    assert_eq!(cache.stats().1, 4, "the rest stay pending, not re-requested");
    cache.pump(10, |_: &u32, b: &[u8]| Ok(b.len()));
    assert_eq!(cache.stats().0, 6, "nothing was lost");
    assert_eq!(cache.stats().1, 0);
}

/// Replies that wait for the next frame hold no slot twice: the cap holds over
/// several frames of a small budget.
#[test]
fn deferred_replies_keep_the_cap() {
    let mut cache: TileCache<u32, usize> = TileCache::new(100, 4);
    cache.tick();
    for i in 0..4u32 {
        cache.ensure(&i, raster(i));
    }
    answer(&mut cache);
    cache.pump(1, |_: &u32, b: &[u8]| Ok(b.len()));
    cache.pump(1, |_: &u32, b: &[u8]| Ok(b.len()));
    assert_eq!(cache.in_flight(), 0);
    cache.tick();
    for i in 10..60u32 {
        cache.ensure(&i, raster(i));
    }
    assert_eq!(cache.in_flight(), 4);
    assert_eq!(cache.take_requests().len(), 4);
}

#[test]
fn a_reply_that_nobody_waits_for_is_dropped() {
    let mut cache: TileCache<u32, usize> = TileCache::new(100, 4);
    cache.tick();
    cache.receive(3, Ok(vec![1]));
    assert!(!cache.pump(10, |_: &u32, b: &[u8]| Ok(b.len())));
    assert_eq!(cache.stats(), (0, 0, 0));
}

#[test]
fn a_tile_that_fails_is_not_asked_for_again() {
    let mut cache: TileCache<u32, usize> = TileCache::new(100, 4);
    cache.tick();
    cache.ensure(&1, raster(1));
    cache.take_requests();
    cache.receive(1, Err("gone".to_owned()));
    cache.pump(10, |_: &u32, b: &[u8]| Ok(b.len()));
    assert_eq!(cache.stats(), (0, 0, 1));
    cache.tick();
    assert!(!cache.ensure(&1, raster(1)));
    assert!(cache.take_requests().is_empty());
}

#[test]
fn the_tile_used_longest_ago_is_dropped() {
    let mut cache: TileCache<u32, usize> = TileCache::new(2, 8);
    for i in 0..3u32 {
        cache.tick();
        cache.ensure(&i, raster(i));
        answer(&mut cache);
        cache.pump(10, |k: &u32, _: &[u8]| Ok(*k as usize));
    }
    cache.tick();
    assert_eq!(cache.peek(&0), Some(&0));
    cache.evict();
    assert!(cache.is_ready(&0));
    assert!(!cache.is_ready(&1));
    assert!(cache.is_ready(&2));
}

#[test]
fn only_ground_layers_are_base_maps() {
    assert!(RasterLayer::PlanIgn.is_base());
    assert!(RasterLayer::Ortho.is_base());
    assert!(!RasterLayer::Contours.is_base());
    assert!(!RasterLayer::Slopes.is_base());
}

#[test]
fn a_layer_has_its_zooms_and_format() {
    assert_eq!(RasterLayer::Contours.zoom_range(), (6, 18));
    assert_eq!(RasterLayer::Slopes.zoom_range(), (0, 17));
    assert_eq!(RasterLayer::Ortho.format(), "image/jpeg");
    assert_eq!(RasterLayer::PlanIgn.wmts_name(), "GEOGRAPHICALGRIDSYSTEMS.PLANIGNV2");
}

#[test]
fn a_refused_tile_says_why() {
    let refused = tile_reply(false, 404, "Not Found", "image/png", vec![1]);
    assert_eq!(refused.unwrap_err(), "HTTP 404 Not Found");
    let fine = tile_reply(true, 200, "OK", "image/png", vec![1, 2]);
    assert_eq!(fine.unwrap(), vec![1, 2]);
}
