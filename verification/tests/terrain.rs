//! Reading the ground.
use trackfinder::number::Single;
use trackfinder::terrain::{cardinal, position, sunny, whole_window, Position};

fn single(x: f32) -> Single {
    Single { bits: x.to_bits() }
}

/// The number of the sector of an azimuth.
fn sector(aspect_deg: f32) -> i32 {
    (aspect_deg / 45.0 + 0.5).floor() as i32
}

#[test]
fn position_thresholds() {
    assert_eq!(position(single(0.0)), Position::Even);
    assert_eq!(position(single(-8.0)), Position::Dip);
    assert_eq!(position(single(20.0)), Position::Ridge);
    assert_eq!(position(single(-20.0)), Position::Hollow);
}

#[test]
fn thresholds_themselves_belong_to_the_tamer_side() {
    assert_eq!(position(single(15.0)), Position::Shoulder);
    assert_eq!(position(single(5.0)), Position::Even);
    assert_eq!(position(single(-5.0)), Position::Even);
    assert_eq!(position(single(-15.0)), Position::Dip);
    assert_eq!(position(single(f32::NAN)), Position::Even);
}

#[test]
fn sectors_are_centred_on_the_cardinals() {
    assert_eq!(cardinal(sector(0.0)), "N");
    assert_eq!(cardinal(sector(350.0)), "N");
    assert_eq!(cardinal(sector(22.0)), "N");
    assert_eq!(cardinal(sector(23.0)), "NE");
    assert_eq!(cardinal(sector(359.9)), "N");
    assert!(!sunny(single(0.0)) && !sunny(single(350.0)) && sunny(single(180.0)));
}

#[test]
fn sectors_go_round() {
    assert_eq!(cardinal(-1), "NW");
    assert_eq!(cardinal(12), "S");
    assert!(sunny(single(90.0)) && sunny(single(270.0)) && !sunny(single(89.9)));
}

#[test]
fn a_hole_in_the_window_yields_no_slope() {
    let samples: Vec<Option<Single>> = (1..=9)
        .map(|n| if n != 5 { Some(single(2000.0)) } else { None })
        .collect();
    assert_eq!(whole_window(&samples), None);
}

#[test]
fn a_whole_window_is_handed_on() {
    let samples = vec![Some(single(1.0)), Some(single(2.0))];
    assert_eq!(whole_window(&samples), Some(vec![single(1.0), single(2.0)]));
}

#[test]
fn positions_have_words() {
    assert_eq!(Position::Ridge.hint(), "very exposed to wind");
    assert_eq!(Position::Hollow.hint(), "sheltered but cold air and damp");
    assert!(!Position::Even.label().is_empty());
}
