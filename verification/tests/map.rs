//! The map: stillness, levels, grids and images.
use trackfinder::map::{
    choose_grid, decode_image, read_image, shows_previous, target_level, Draw, Grid, LayerLevel,
    Motion, Pixels, RasterKey, TileRenderer, LEVEL_CROSSFADE_NS, MAX_TILE_REQUESTS, VIEW_SETTLE_NS,
    ZOOM_SETTLE_NS,
};
use trackfinder::number::Single;
use trackfinder::tiles::RasterLayer;

fn single(x: f32) -> Single {
    Single { bits: x.to_bits() }
}

#[test]
fn a_new_view_is_settled() {
    let view = Motion::new();
    assert!(view.zoom_settled(0));
    assert!(view.view_settled(0));
}

#[test]
fn zooming_unsettles_the_view() {
    let mut view = Motion::new();
    view.zoomed(single(14.0), single(14.4), 1_000);
    assert!(!view.zoom_settled(1_000));
    assert!(!view.view_settled(1_000));
}

#[test]
fn a_zoom_that_changes_nothing_stays_settled() {
    let mut view = Motion::new();
    let before = 19.0f32;
    let after = (before + 1.0).clamp(3.0, 19.0);
    view.zoomed(single(before), single(after), 1_000);
    assert_eq!(after, 19.0);
    assert!(view.zoom_settled(1_000));
}

#[test]
fn panning_keeps_the_tile_level() {
    let mut view = Motion::new();
    view.touch(1_000);
    assert!(view.zoom_settled(1_000), "a pan must not reset the tile level");
    assert!(!view.view_settled(1_000));
}

#[test]
fn a_view_settles_after_a_while() {
    let mut view = Motion::new();
    view.zoomed(single(14.0), single(15.0), 1_000);
    assert!(!view.zoom_settled(1_000 + ZOOM_SETTLE_NS - 1));
    assert!(view.zoom_settled(1_000 + ZOOM_SETTLE_NS));
    assert!(!view.view_settled(1_000 + VIEW_SETTLE_NS - 1));
    assert!(view.view_settled(1_000 + VIEW_SETTLE_NS));
}

#[test]
fn a_layer_is_drawn_at_its_nearest_level() {
    assert_eq!(target_level(RasterLayer::Contours, 3), 6);
    assert_eq!(target_level(RasterLayer::Contours, 12), 12);
    assert_eq!(target_level(RasterLayer::Slopes, 19), 17);
}

#[test]
fn the_level_that_was_left_fades() {
    let level = LayerLevel {
        z: 12,
        previous: 11,
        switched_ns: 1_000,
    };
    assert!(shows_previous(level, 1_000));
    assert!(!shows_previous(level, 1_000 + LEVEL_CROSSFADE_NS));
    assert!(!shows_previous(
        LayerLevel {
            previous: 12,
            ..level
        },
        1_000
    ));
}

/// A window as wide as the world times a fraction, at each level.
fn window(fraction: f64) -> impl Fn(u8) -> (i64, i64, i64, i64) {
    move |z: u8| {
        let n = (1u64 << z) as f64;
        let last = (fraction * n).floor() as i64;
        (0, last, 0, last)
    }
}

#[test]
fn a_wide_window_gets_a_coarser_level() {
    let g = choose_grid(10, 0, &window(0.5)).unwrap();
    assert_eq!(g.z, 5);
    assert_eq!((g.x1, g.y1), (16, 16));
    assert!(choose_grid(10, 8, &window(0.5)).is_none(), "even the coarsest has too many");
    assert!(choose_grid(10, 0, &|_: u8| (5, 4, 0, 0)).is_none(), "nothing is in view");
}

#[test]
fn rows_stay_in_the_world() {
    let g = choose_grid(2, 0, &|_: u8| (-1, 1, -3, 9)).unwrap();
    assert_eq!(
        g,
        Grid {
            z: 2,
            x0: -1,
            x1: 1,
            y0: 0,
            y1: 3
        }
    );
}

/// Answers every request with one byte, and takes all replies in.
fn answer(r: &mut TileRenderer<u8>) {
    for (key, _) in r.cache.take_requests() {
        r.cache.receive(key, Ok(vec![1]));
    }
    while r.begin_frame(|_: &u128, b: &[u8]| Ok(b[0])) {}
}

#[test]
fn a_missing_tile_asks_for_its_parent_too() {
    let mut r: TileRenderer<u8> = TileRenderer::new();
    let g = Grid {
        z: 4,
        x0: 3,
        x1: 3,
        y0: 5,
        y1: 5,
    };
    let placed = r.plan_grid(RasterLayer::PlanIgn, g, true);
    assert_eq!(placed.len(), 1);
    assert_eq!(placed[0].draw, Draw::Nothing);
    let asked: Vec<(u8, u32, u32)> =
        r.cache.take_requests().iter().map(|(_, d)| (d.z, d.x, d.y)).collect();
    assert_eq!(asked, vec![(4, 3, 5), (3, 1, 2)]);
}

#[test]
fn an_ancestor_stands_in_for_a_missing_tile() {
    let mut r: TileRenderer<u8> = TileRenderer::new();
    let coarse = Grid {
        z: 2,
        x0: 0,
        x1: 0,
        y0: 1,
        y1: 1,
    };
    r.plan_grid(RasterLayer::PlanIgn, coarse, true);
    answer(&mut r);
    let fine = Grid {
        z: 4,
        x0: 3,
        x1: 3,
        y0: 5,
        y1: 5,
    };
    let placed = r.plan_grid(RasterLayer::PlanIgn, fine, true);
    let key = |z: u8, x: u32, y: u32| RasterKey {
        layer: RasterLayer::PlanIgn,
        z,
        x,
        y,
    };
    assert_eq!(
        placed[0].draw,
        Draw::Part {
            ancestor: key(2, 0, 1),
            levels: 2,
            column: 3,
            row: 1
        }
    );
    assert_eq!((r.painted, r.fallbacks), (0, 1));
    answer(&mut r);
    let placed = r.plan_grid(RasterLayer::PlanIgn, fine, true);
    assert_eq!(placed[0].draw, Draw::Own(key(4, 3, 5)));
    assert_eq!(r.painted, 1);
}

#[test]
fn the_underlay_asks_for_nothing() {
    let mut r: TileRenderer<u8> = TileRenderer::new();
    let g = Grid {
        z: 4,
        x0: -1,
        x1: 1,
        y0: 5,
        y1: 6,
    };
    let placed = r.plan_grid(RasterLayer::PlanIgn, g, false);
    assert_eq!(placed.len(), 6);
    assert!(r.cache.take_requests().is_empty());
    let placed = r.plan_grid(RasterLayer::PlanIgn, g, true);
    assert_eq!(placed[0].tx, -1);
    let first = r.cache.take_requests()[0].1;
    assert_eq!((first.x, first.y), (15, 5), "columns fold back onto the world");
}

#[test]
fn requests_for_tiles_are_capped() {
    let mut r: TileRenderer<u8> = TileRenderer::new();
    let g = Grid {
        z: 10,
        x0: 0,
        x1: 19,
        y0: 0,
        y1: 19,
    };
    r.plan_grid(RasterLayer::Ortho, g, true);
    assert_eq!(r.in_flight(), MAX_TILE_REQUESTS);
    assert_eq!(r.stats(), (0, MAX_TILE_REQUESTS, 0));
}

#[test]
fn a_level_is_committed_to_once_the_zoom_is_still() {
    let mut r: TileRenderer<u8> = TileRenderer::new();
    let window = |_: u8| (0i64, 0i64, 0i64, 0i64);
    let (below, above) = r.paint_layer(RasterLayer::PlanIgn, 10, true, 0, window);
    assert!(below.is_none());
    assert_eq!(above.unwrap().grid.z, 10);
    let (_, above) = r.paint_layer(RasterLayer::PlanIgn, 12, false, 1, window);
    assert_eq!(above.unwrap().grid.z, 10, "the loaded level is scaled meanwhile");
    let (_, above) = r.paint_layer(RasterLayer::PlanIgn, 15, false, 2, window);
    assert_eq!(above.unwrap().grid.z, 12, "but not when it is much too coarse");
    let (_, above) = r.paint_layer(RasterLayer::PlanIgn, 7, false, 3, window);
    assert_eq!(above.unwrap().grid.z, 8, "nor much too fine");
    let (below, above) = r.paint_layer(RasterLayer::PlanIgn, 12, true, 4, window);
    assert_eq!(above.unwrap().grid.z, 12);
    assert_eq!(below.unwrap().grid.z, 10, "the level that was left is underneath");
    let (below, _) = r.paint_layer(RasterLayer::PlanIgn, 12, true, 4 + LEVEL_CROSSFADE_NS, window);
    assert!(below.is_none());
}

#[test]
fn tile_keys_have_codes_of_their_own() {
    let key = |layer, z, x, y| RasterKey { layer, z, x, y };
    let a = key(RasterLayer::PlanIgn, 1, 2, 3);
    assert_ne!(a.code(), key(RasterLayer::Ortho, 1, 2, 3).code());
    assert_ne!(a.code(), key(RasterLayer::PlanIgn, 1, 3, 2).code());
    assert_eq!(a.desc().x, 2);
}

/// An image of two pixels, red and half-transparent blue.
fn png() -> Vec<u8> {
    let pixels: Vec<u8> = vec![255, 0, 0, 255, 0, 0, 255, 128];
    let img = image::RgbaImage::from_raw(2, 1, pixels).unwrap();
    let mut out = std::io::Cursor::new(Vec::new());
    img.write_to(&mut out, image::ImageFormat::Png).unwrap();
    out.into_inner()
}

#[test]
fn an_image_is_decoded() {
    let p = decode_image(&png()).unwrap();
    assert_eq!((p.width, p.height), (2, 1));
    assert_eq!(p.rgba, vec![255, 0, 0, 255, 0, 0, 255, 128]);
}

#[test]
fn bytes_that_are_no_image_say_so() {
    let e = decode_image(b"<html>").err().unwrap();
    assert!(e.starts_with("image decode: "), "{e}");
    assert_eq!(read_image(Err("cut".to_owned())).err().unwrap(), "image decode: cut");
    let p = Pixels {
        width: 1,
        height: 1,
        rgba: vec![1, 2, 3, 4],
    };
    assert_eq!(read_image(Ok(p)).unwrap().rgba, vec![1, 2, 3, 4]);
}
