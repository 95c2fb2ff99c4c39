//! Food and water carried, leg by leg.
use trackfinder::number::Real;
use trackfinder::supply::{simulate, Plan, Resupply, Rules, Sums};

const WATER_KG_PER_L: f64 = 1.0;

fn num(x: f64) -> Real {
    Real { bits: x.to_bits() }
}

fn f(x: Real) -> f64 {
    f64::from_bits(x.bits)
}

#[derive(Clone, Copy)]
struct Settings {
    body_weight_kg: f64,
    base_pack_kg: f64,
    ration_g_per_day: f64,
    water_capacity_l: f64,
    water_rate_lph: f64,
    food_start_kg: f64,
}

fn settings() -> Settings {
    Settings {
        body_weight_kg: 70.0,
        base_pack_kg: 8.0,
        ration_g_per_day: 700.0,
        water_capacity_l: 2.0,
        water_rate_lph: 0.5,
        food_start_kg: 2.1,
    }
}

fn food(food_kg: f64, water_fill: bool) -> Resupply {
    Resupply {
        food_kg: num(food_kg),
        water_fill,
    }
}

fn run(legs: &[f64], resupply: &[Resupply], s: Settings) -> Plan {
    let rules = Rules {
        food_start_kg: num(s.food_start_kg),
        ration_kg: num(s.ration_g_per_day / 1000.0),
        water_capacity_l: num(s.water_capacity_l),
        load_limit_kg: num(s.body_weight_kg * 0.20),
    };
    let sums = Sums {
        plus: |a: Real, b: Real| num(f(a) + f(b)),
        minus: |a: Real, b: Real| num(f(a) - f(b)),
        slack: |a: Real| num(f(a) + 1e-9),
        pack: |food: Real, water: Real| {
            num(s.base_pack_kg + f(food) + f(water) * WATER_KG_PER_L)
        },
        price: |base: Real, pack: Real| {
            let factor: f64 = 1.0 - 0.01 * (f(pack) - 10.0).max(0.0);
            num(f(base) / factor.max(0.1))
        },
        need: |time: Real| num(s.water_rate_lph.max(0.0) * f(time)),
    };
    let times = legs.iter().map(|t| num(*t)).collect();
    simulate(&times, &resupply.to_vec(), &rules, &sums)
}

#[test]
fn the_pack_gets_lighter_every_day() {
    let plan = run(&[4.0, 4.0, 4.0], &[], settings());
    assert_eq!(plan.legs.len(), 3);
    assert!((f(plan.legs[0].pack_start_kg) - 12.1).abs() < 1e-9);
    for w in plan.legs.windows(2) {
        assert!(f(w[1].pack_start_kg) < f(w[0].pack_start_kg));
    }
    assert!(f(plan.next_food_kg).abs() < 1e-9);
}

#[test]
fn a_resupply_raises_the_load_mid_trip() {
    let resupply = [Resupply::at_start(), Resupply::default(), food(5.0, true)];
    let plan = run(&[4.0, 4.0, 4.0], &resupply, settings());
    assert!(f(plan.legs[2].pack_start_kg) > f(plan.legs[0].pack_start_kg));
}

#[test]
fn a_heavier_pack_makes_the_same_leg_longer() {
    let light = run(&[4.0], &[], settings());
    let mut s = settings();
    s.food_start_kg = 12.0;
    let heavy = run(&[4.0], &[], s);
    assert!(f(heavy.legs[0].time_h) > f(light.legs[0].time_h));
}

#[test]
fn running_out_of_water_is_flagged_not_hidden() {
    let plan = run(&[6.0], &[], settings());
    assert!(plan.legs[0].water_short);
    assert!(f(plan.legs[0].water_need_l) > 2.0);
    assert_eq!(f(plan.legs[0].water_end_l), 0.0);
    assert_eq!(plan.first_water_short(), Some(0));
}

#[test]
fn a_fill_restores_capacity_between_legs() {
    let no_fill = run(
        &[3.0, 3.0],
        &[Resupply::at_start(), Resupply::default()],
        settings(),
    );
    assert!(f(no_fill.legs[1].water_start_l) < 2.0);
    assert!(no_fill.legs[1].water_short);

    let filled = run(
        &[3.0, 3.0],
        &[Resupply::at_start(), Resupply::at_start()],
        settings(),
    );
    assert!((f(filled.legs[1].water_start_l) - 2.0).abs() < 1e-9);
    assert!(!filled.legs[1].water_short);
}

#[test]
fn food_runs_out_on_the_day_after_the_last_ration() {
    let mut s = settings();
    s.food_start_kg = 1.4;
    let plan = run(&[2.0, 2.0, 2.0], &[], s);
    assert_eq!(plan.first_food_short(), Some(2));
}

#[test]
fn the_overload_alert_is_per_leg() {
    let mut s = settings();
    s.food_start_kg = 1.0;
    let plan = run(&[3.0, 3.0], &[Resupply::at_start(), food(6.0, true)], s);
    assert!(!plan.legs[0].overloaded);
    assert!(plan.legs[1].overloaded);
    assert!(plan.any_overloaded());
}

#[test]
fn the_next_leg_starts_where_the_last_one_stopped() {
    let plan = run(&[3.0], &[], settings());
    assert!((f(plan.next_food_kg) - (2.1 - 0.7)).abs() < 1e-9);
    let pack = 8.0 + f(plan.next_food_kg) + f(plan.next_water_l);
    assert!((f(plan.next_pack_kg) - pack).abs() < 1e-9);
}

#[test]
fn an_empty_track_still_gives_the_pack_at_the_start() {
    let plan = run(&[], &[], settings());
    assert!(plan.legs.is_empty());
    assert!((f(plan.next_pack_kg) - 12.1).abs() < 1e-9);
    assert!(!plan.any_overloaded());
    assert_eq!(plan.first_food_short(), None);
}

#[test]
fn less_than_nothing_counts_as_nothing() {
    let mut s = settings();
    s.food_start_kg = -3.0;
    let plan = run(&[1.0], &[food(-2.0, false)], s);
    assert_eq!(f(plan.legs[0].food_start_kg), 0.0);
    assert!(plan.legs[0].food_short);
    assert_eq!(f(plan.legs[0].food_end_kg), 0.0);
}

#[test]
fn one_more_leg_starts_where_the_plan_ends() {
    let resupply = [food(0.0, true), food(0.5, false), food(1.0, true), food(0.2, false)];
    let short = run(&[4.0, 6.0], &resupply, settings());
    let long = run(&[4.0, 6.0, 5.0], &resupply, settings());
    assert_eq!(long.legs[..2], short.legs[..]);
    assert_eq!(long.legs[2].pack_start_kg, short.next_pack_kg);
    assert_eq!(long.legs[2].food_start_kg, short.next_food_kg);
    assert_eq!(long.legs[2].water_start_l, short.next_water_l);
}
