//! The track: its line, its profile and its legs.
use trackfinder::figures::{compute_stats, Pace};
use trackfinder::geo::{Bounds, LatLon};
use trackfinder::number::{Real, Single};
use trackfinder::track::{
    format_duration, leg_geometry, relief, sample_polyline, Sample, SpeedModel, Track, TrackStats,
    Waypoint, MAX_SAMPLES,
};
use trackfinder::trails::network::Cell;
use trackfinder::trails::{Snap, TrailNetwork, Way, WayKind};

const STEP_M: f64 = 50.0;

fn num(x: f64) -> Real {
    Real { bits: x.to_bits() }
}

fn f(x: Real) -> f64 {
    f64::from_bits(x.bits)
}

fn single(x: f32) -> Single {
    Single { bits: x.to_bits() }
}

fn ll(lat: f64, lon: f64) -> LatLon {
    LatLon::new(num(lat), num(lon))
}

fn haversine_m(a: LatLon, b: LatLon) -> f64 {
    let (la, lb) = (f(a.lat).to_radians(), f(b.lat).to_radians());
    let dlat = lb - la;
    let dlon = (f(b.lon) - f(a.lon)).to_radians();
    let h = (dlat / 2.0).sin().powi(2) + la.cos() * lb.cos() * (dlon / 2.0).sin().powi(2);
    2.0 * 6_371_008.8 * h.sqrt().asin()
}

/// Samples of a line, a step apart.
fn sampled(points: &Vec<LatLon>) -> (Vec<Sample>, Vec<usize>) {
    let segs: Vec<f64> = points.windows(2).map(|w| haversine_m(w[0], w[1])).collect();
    let total: f64 = segs.iter().sum();
    let step = (total / MAX_SAMPLES as f64).max(STEP_M);
    let counts: Vec<usize> = segs
        .iter()
        .map(|s| if *s > 0.0 { (s / step).ceil().max(1.0) as usize } else { 0 })
        .collect();
    let mut starts = vec![0.0];
    for s in &segs {
        starts.push(starts[starts.len() - 1] + s);
    }
    sample_polyline(points, &counts, |s: usize, k: usize| {
        let t = k as f64 / counts[s] as f64;
        let (a, b) = (points[s], points[s + 1]);
        Sample {
            dist_m: num(starts[s] + segs[s] * t),
            pos: ll(
                f(a.lat) + (f(b.lat) - f(a.lat)) * t,
                f(a.lon) + (f(b.lon) - f(a.lon)) * t,
            ),
            elev_m: None,
        }
    })
}

const TOBLER_FLAT_KMH: f64 = 5.036_742_124_615_245;

fn tobler_kmh(slope: f64) -> f64 {
    6.0 * (-3.5 * (slope + 0.05).abs()).exp()
}

#[derive(Clone, Copy)]
struct Walk {
    model: SpeedModel,
    flat_kmh: f64,
    ascent_mh: f64,
    load_kg: f64,
}

fn slope_kmh(w: Walk, slope: f64) -> f64 {
    match w.model {
        SpeedModel::Naismith => w.flat_kmh.max(0.1),
        SpeedModel::Tobler => tobler_kmh(slope) * w.flat_kmh.max(0.1) / TOBLER_FLAT_KMH,
    }
}

fn unloaded() -> Walk {
    Walk {
        model: SpeedModel::Naismith,
        flat_kmh: 5.0,
        ascent_mh: 600.0,
        load_kg: 0.0,
    }
}

fn f32_of(x: Single) -> f32 {
    f32::from_bits(x.bits)
}

/// The figures of a profile at a pace, and those of a track and its legs.
fn figured(profile: &Vec<Sample>, w: Walk, track: Option<&mut Track>) -> TrackStats {
    let pace = Pace {
        span: |a: Real, b: Real| num(f(a) - f(b)),
        diff: |a: Single, b: Single| single(f32_of(a) - f32_of(b)),
        climb: |sum: Real, step: Single| num(f(sum) + f32_of(step).abs() as f64),
        plus: |a: Real, b: Real| num(f(a) + f(b)),
        rates: |d: Real, up: Real| {
            num((f(d) / 1000.0) / w.flat_kmh.max(0.1) + f(up) / w.ascent_mh.max(1.0))
        },
        stretch: |dx: Real, ends: Option<(Single, Single)>| {
            let slope = match ends {
                Some((a, b)) => (f32_of(b) - f32_of(a)) as f64 / f(dx),
                None => 0.0,
            };
            num((f(dx) / 1000.0) / slope_kmh(w, slope))
        },
        loaded: |h: Real| {
            let factor: f64 = 1.0 - 0.01 * (w.load_kg - 10.0f64).max(0.0);
            num(f(h) / factor.max(0.1))
        },
    };
    if let Some(t) = track {
        t.recompute_time(w.model, &pace);
    }
    compute_stats(profile, w.model, true, &pace)
}

fn stats_of(profile: &Vec<Sample>, w: Walk) -> TrackStats {
    figured(profile, w, None)
}

fn samples(elevs: &[f32], total_m: f64) -> Vec<Sample> {
    let n = elevs.len().max(2) - 1;
    elevs
        .iter()
        .enumerate()
        .map(|(i, e)| Sample {
            dist_m: num(total_m * i as f64 / n as f64),
            pos: ll(45.0, 6.0),
            elev_m: Some(single(*e)),
        })
        .collect()
}

/// Ascent and descent of a profile.
fn climb(elevs: &[f32]) -> (f64, f64) {
    let s = stats_of(&samples(elevs, 1000.0), unloaded());
    (f(s.ascent_m), f(s.descent_m))
}

#[test]
fn naismith_on_the_flat() {
    let stats = stats_of(&samples(&[1000.0, 1000.0], 10_000.0), unloaded());
    assert!((f(stats.time_h) - 2.0).abs() < 1e-6, "{}", f(stats.time_h));
    assert_eq!(f(stats.ascent_m), 0.0);
}

#[test]
fn naismith_with_ascent() {
    let stats = stats_of(&samples(&[1000.0, 1600.0], 5_000.0), unloaded());
    assert!((f(stats.ascent_m) - 600.0).abs() < 1e-6);
    assert!((f(stats.time_h) - 2.0).abs() < 1e-6, "{}", f(stats.time_h));
}

#[test]
fn hysteresis_filters_dem_noise() {
    let noisy: Vec<f32> = (0..100)
        .map(|i| 1000.0 + if i % 2 == 0 { 1.0 } else { -1.0 })
        .collect();
    let stats = stats_of(&samples(&noisy, 1000.0), unloaded());
    assert_eq!(f(stats.ascent_m), 0.0);
    assert_eq!(f(stats.descent_m), 0.0);

    let real = stats_of(&samples(&[1000.0, 1050.0, 1100.0], 1000.0), unloaded());
    assert!((f(real.ascent_m) - 100.0).abs() < 1e-6);
}

#[test]
fn tobler_keeps_the_users_flat_speed() {
    let w = Walk {
        model: SpeedModel::Tobler,
        flat_kmh: 4.0,
        ..unloaded()
    };
    assert!((slope_kmh(w, 0.0) - 4.0).abs() < 1e-9);
    let stats = stats_of(&samples(&[1000.0, 1000.0], 8_000.0), w);
    assert!((f(stats.time_h) - 2.0).abs() < 1e-6, "{}", f(stats.time_h));
}

#[test]
fn tobler_charges_for_the_descent_where_naismith_does_not() {
    let profile = samples(&[2000.0, 1000.0], 5_000.0);
    let n = stats_of(&profile, unloaded());
    let t = stats_of(
        &profile,
        Walk {
            model: SpeedModel::Tobler,
            ..unloaded()
        },
    );
    assert!((f(n.time_h) - 1.0).abs() < 1e-6, "{}", f(n.time_h));
    assert!(f(t.time_h) > f(n.time_h), "tobler {} naismith {}", f(t.time_h), f(n.time_h));
}

#[test]
fn the_load_only_divides_the_base_time() {
    let profile = samples(&[1000.0, 1600.0], 5_000.0);
    let a = stats_of(&profile, unloaded());
    let b = stats_of(
        &profile,
        Walk {
            load_kg: 20.0,
            ..unloaded()
        },
    );
    assert!((f(a.base_time_h) - f(b.base_time_h)).abs() < 1e-12);
    assert!((f(b.time_h) - f(a.base_time_h) / 0.9).abs() < 1e-9);
}

#[test]
fn a_slice_measures_its_own_span_not_the_track() {
    let profile = samples(&[1000.0, 1000.0, 1000.0], 10_000.0);
    let stats = stats_of(&profile[1..].to_vec(), unloaded());
    assert!((f(stats.distance_m) - 5_000.0).abs() < 1e-6);
    assert!((f(stats.time_h) - 1.0).abs() < 1e-6);
}

#[test]
fn an_empty_profile_has_no_figures() {
    let stats = stats_of(&vec![], unloaded());
    assert_eq!(f(stats.distance_m), 0.0);
    assert!(!stats.elevation_complete);
    assert_eq!(stats.min_elev_m, None);
}

#[test]
fn a_climb_and_a_descent_are_told_apart() {
    assert_eq!(climb(&[1000.0, 1600.0, 1200.0, 1202.0]), (600.0, 400.0));
    assert_eq!(climb(&[1000.0, 1003.0, 1004.0]), (4.0, 0.0), "three metres are still noise");
    assert_eq!(climb(&[]), (0.0, 0.0));
}

#[test]
fn gaps_in_a_profile_are_stepped_over() {
    let elevs = vec![None, Some(single(10.0)), None, Some(single(30.0))];
    let r = relief(&elevs, &|a: Single, b: Single| {
        single(f32::from_bits(a.bits) - f32::from_bits(b.bits))
    });
    assert_eq!(r.min_elev_m, Some(single(10.0)));
    assert_eq!(r.max_elev_m, Some(single(30.0)));
    assert_eq!(r.steps, vec![single(20.0)]);
}

#[test]
fn sampling_respects_the_step() {
    let pts = vec![ll(45.0, 6.0), ll(45.01, 6.0)];
    let (out, vertices) = sampled(&pts);
    assert!(out.len() > 20, "{} samples", out.len());
    for w in out.windows(2) {
        assert!(f(w[1].dist_m) - f(w[0].dist_m) <= STEP_M + 1.0);
    }
    assert!((f(out.last().unwrap().dist_m) - haversine_m(pts[0], pts[1])).abs() < 1.0);
    assert_eq!(vertices, vec![0, out.len() - 1]);
}

#[test]
fn sampling_is_capped() {
    let pts = vec![ll(45.0, 6.0), ll(45.9, 6.0)];
    let (out, _) = sampled(&pts);
    assert!(out.len() <= MAX_SAMPLES + 2, "{} samples", out.len());
}

#[test]
fn a_segment_without_a_length_adds_no_sample() {
    let pts = vec![ll(45.0, 6.0), ll(45.0, 6.0), ll(45.001, 6.0)];
    let (out, vertices) = sampled(&pts);
    assert_eq!(vertices, vec![0, 0, out.len() - 1]);
    assert_eq!(sampled(&vec![]).0.len(), 0);
}

#[test]
fn legs_are_cut_at_the_waypoints() {
    let mut track = Track::default();
    for lat in [45.0, 45.02, 45.05] {
        track.push(Waypoint::free(ll(lat, 6.0)));
    }
    let net = TrailNetwork::default();
    track.rebuild_path(&net);
    let (profile, vertex_sample) = sampled(&track.path);
    track.lay_profile(profile, &vertex_sample);
    figured(
        &vec![],
        Walk {
            load_kg: 12.0,
            ..unloaded()
        },
        Some(&mut track),
    );

    assert_eq!(track.legs().len(), 2);
    let total: f64 = track.legs().iter().map(|l| f(l.distance_m)).sum();
    assert!((total - f(track.stats().distance_m)).abs() < 1.0, "{total}");
    assert!(f(track.legs()[1].distance_m) > f(track.legs()[0].distance_m));
}

/// Hours as whole minutes, and nothing where there is no duration.
fn minutes(hours: f64) -> Option<u64> {
    if !hours.is_finite() || hours <= 0.0 {
        return None;
    }
    Some((hours * 60.0).round() as u64)
}

#[test]
fn duration_formatting() {
    assert_eq!(format_duration(minutes(2.5)), "2 h 30");
    assert_eq!(format_duration(minutes(0.0)), "—");
}

#[test]
fn durations_have_two_digits_for_minutes() {
    assert_eq!(format_duration(Some(5)), "0 h 05");
    assert_eq!(format_duration(Some(600)), "10 h 00");
}

fn network() -> TrailNetwork {
    let points = vec![ll(45.0, 6.0), ll(45.001, 6.0), ll(45.001, 6.002)];
    let bounds = Bounds::around(&points);
    let cells: Vec<Cell> = vec![(22500, 3000), (22500, 3000), (22500, 3001)];
    let mut net = TrailNetwork::default();
    net.insert(
        Way {
            id: 7,
            kind: WayKind::Path,
            name: None,
            nodes: vec![1, 2, 3],
            points,
            sac_scale: None,
            bounds,
        },
        &cells,
    );
    net
}

fn snap(way_id: i64, seg: usize, pos: LatLon) -> Snap {
    Snap {
        way_id,
        seg,
        t: num(0.5),
        pos,
        dist_m: num(1.0),
    }
}

#[test]
fn a_leg_follows_its_trail() {
    let net = network();
    let a = Waypoint::snapped(snap(7, 0, ll(45.0005, 6.0)));
    let b = Waypoint::snapped(snap(7, 1, ll(45.001, 6.001)));
    let line = leg_geometry(&net, &a, &b).unwrap();
    assert_eq!(line, vec![ll(45.0005, 6.0), ll(45.001, 6.0), ll(45.001, 6.001)]);
    let free = Waypoint::free(ll(45.5, 6.5));
    assert!(leg_geometry(&net, &a, &free).is_none());
    let via = Waypoint::routed(snap(9, 0, ll(1.0, 1.0)), vec![ll(0.0, 0.0), ll(1.0, 1.0)]);
    assert_eq!(leg_geometry(&net, &a, &via).unwrap().len(), 2, "a route goes before");

    let mut track = Track::default();
    track.push(a);
    track.push(b);
    track.push(free);
    assert_eq!(track.followed_legs(&net), 1);
    assert!(track.begin_refresh(&net));
    assert_eq!(track.path().len(), 4);
    assert_eq!(track.wp_vertex, vec![0, 2, 3]);
    let (profile, vertex) = sampled(&track.path);
    track.lay_profile(profile, &vertex);
    let none: Vec<Option<Single>> = track.profile().iter().map(|_| None).collect();
    track.fill_elevations(&none);
    assert!(!track.stats().elevation_complete);
    assert!(track.begin_refresh(&net), "elevations are still missing");
    let all: Vec<Option<Single>> = track.profile().iter().map(|_| Some(single(1.0))).collect();
    track.fill_elevations(&all);
    assert!(track.stats().elevation_complete);
    assert!(!track.begin_refresh(&net));
    track.pop();
    assert!(track.dirty && track.waypoints.len() == 2);
    track.clear();
    assert!(track.waypoints.is_empty());
    assert!(track.begin_refresh(&net));
    track.invalidate();
    assert!(track.dirty);
}

#[test]
fn speed_models_have_names() {
    let labels: Vec<&str> = SpeedModel::all().iter().map(|m| m.label()).collect();
    assert_eq!(labels, vec!["Naismith", "Tobler"]);
}

#[test]
fn a_leg_has_its_part_of_the_profile() {
    let mut track = Track::default();
    for lon in [6.0, 6.1, 6.2] {
        track.push(Waypoint::free(ll(45.0, lon)));
    }
    track.rebuild_path(&TrailNetwork::default());
    let profile: Vec<Sample> = (0..4)
        .map(|i| Sample {
            dist_m: num(i as f64),
            pos: ll(45.0, 6.0),
            elev_m: None,
        })
        .collect();
    track.lay_profile(profile.clone(), &vec![0, 2, 3]);
    let dists = |leg: usize| -> Vec<Real> {
        track.leg_profile(leg).iter().map(|s| s.dist_m).collect()
    };
    assert_eq!(dists(0), vec![num(0.0), num(1.0), num(2.0)]);
    assert_eq!(dists(1), vec![num(2.0), num(3.0)]);
    assert!(dists(2).is_empty());
}

#[test]
fn points_that_coincide_still_make_a_leg() {
    let mut track = Track::default();
    for lat in [45.0, 45.0, 45.02] {
        track.push(Waypoint::free(ll(lat, 6.0)));
    }
    assert!(track.begin_refresh(&TrailNetwork::default()));
    let (profile, vertex) = sampled(&track.path);
    track.lay_profile(profile, &vertex);
    let profile = track.profile.clone();
    figured(&profile, unloaded(), Some(&mut track));
    assert_eq!(track.legs().len(), 2, "one leg for each pair of waypoints");
    assert_eq!(f(track.legs()[0].distance_m), 0.0);
    assert_eq!(track.leg_profile(0).len(), 1);
    let total = f(track.stats().distance_m);
    assert!(total > 2_000.0);
    assert_eq!(f(track.legs()[1].distance_m), total);
}

#[test]
fn another_load_changes_the_time_alone() {
    let profile = samples(&[1000.0, 1100.0, 1050.0, 1300.0], 6_000.0);
    for model in SpeedModel::all() {
        let light = stats_of(&profile, Walk { model, ..unloaded() });
        let heavy = stats_of(&profile, Walk { model, load_kg: 25.0, ..unloaded() });
        assert!(f(heavy.time_h) > f(light.time_h));
        assert_eq!(heavy, TrackStats { time_h: heavy.time_h, ..light });
    }
}
