use opacity::fading::{interpolate, Opacity};
use opacity::fixed::UNIT;

const HALF: u32 = UNIT / 2;
const QUARTER_SECOND: u32 = UNIT / 4;

#[test]
fn new_and_getters() {
    let o = Opacity::new(HALF);
    assert_eq!(o.get(), HALF);
    assert_eq!(o.get_target(), HALF);
    assert!(o.is_visible());
    assert!(!o.is_opaque());
    assert!(!o.is_invisible());
}

#[test]
fn boundary_values() {
    let zero = Opacity::new(0);
    assert!(zero.is_invisible());
    assert!(!zero.is_visible());
    let full = Opacity::new(UNIT);
    assert!(full.is_opaque());
    assert!(full.is_visible());
}

#[test]
fn default_is_opaque() {
    let o = Opacity::default();
    assert_eq!(o.get(), UNIT);
    assert!(o.is_opaque());
}

#[test]
fn fade_in_monotonic() {
    // A two-second fade from invisible: current=0, target=1, speed=1/2.
    let mut o = Opacity::new_fade_in(2 * UNIT);
    assert_eq!(o.get(), 0);
    assert_eq!(o.get_target(), UNIT);
    let mut last: u32 = 0;
    for _ in 0..4 {
        o.tick(QUARTER_SECOND);
        assert!(o.get() >= last);
        last = o.get();
    }
    // After one second of quarter-second ticks, exactly halfway.
    assert_eq!(o.get(), HALF);
    for _ in 0..4 {
        o.tick(QUARTER_SECOND);
    }
    // After two cumulative seconds, exactly fully opaque and idle.
    assert_eq!(o.get(), UNIT);
    assert!(o.is_opaque());
    let removed = o.tick(QUARTER_SECOND);
    assert!(!removed);
    assert_eq!(o.get(), UNIT);
    assert_eq!(o.get_target(), UNIT);
}

#[test]
fn fade_out_requests_removal_exactly_once() {
    // A one-second fade-out ticked for one cumulative second reaches
    // exactly zero and asks for removal exactly once.
    let mut o = Opacity::new(UNIT);
    o.fade_out(UNIT);
    assert!(!o.tick(HALF));
    assert_eq!(o.get(), HALF);
    assert!(o.tick(HALF));
    assert_eq!(o.get(), 0);
    assert!(o.is_invisible());
    assert!(!o.tick(HALF));
    assert!(!o.tick(UNIT));
    assert_eq!(o.get(), 0);
}

#[test]
fn fade_out_overshoot_clamps_to_zero() {
    let mut o = Opacity::new(UNIT);
    o.fade_out(UNIT);
    assert!(o.tick(3 * UNIT));
    assert_eq!(o.get(), 0);
}

#[test]
fn fade_out_cancelled_by_fade_in() {
    let mut o = Opacity::new(UNIT);
    o.fade_out(UNIT);
    o.tick(HALF);
    o.fade_in(UNIT);
    for _ in 0..8 {
        assert!(!o.tick(HALF));
    }
    assert_eq!(o.get(), UNIT);
}

#[test]
fn set_cancels_despawn() {
    let mut o = Opacity::new(UNIT);
    o.fade_out(UNIT);
    o.set(HALF);
    assert!(!o.tick(4 * UNIT));
    assert_eq!(o.get(), HALF);
    assert_eq!(o.get_target(), HALF);
}

#[test]
fn and_fade_in_keeps_current() {
    let o = Opacity::new(HALF).and_fade_in(UNIT);
    assert_eq!(o.get(), HALF);
    assert_eq!(o.get_target(), UNIT);
}

#[test]
fn interpolate_to_reaches_value() {
    let mut o = Opacity::new(0);
    o.interpolate_to(HALF, UNIT);
    assert_eq!(o.get_target(), HALF);
    o.tick(UNIT);
    assert_eq!(o.get(), HALF);
    // Idle afterwards: nothing moves.
    o.tick(UNIT);
    assert_eq!(o.get(), HALF);
}

#[test]
fn interpolate_to_present_value_is_idle() {
    let mut o = Opacity::new(HALF);
    o.interpolate_to(HALF, UNIT);
    assert!(!o.tick(UNIT));
    assert_eq!(o.get(), HALF);
}

#[test]
fn interpolate_by_speed_crosses_at_range_speed() {
    // Full range per second, downward, without a despawn.
    let mut o = Opacity::new(UNIT);
    o.interpolate_by_speed(0, UNIT);
    assert!(!o.tick(HALF));
    assert_eq!(o.get(), HALF);
    assert!(!o.tick(HALF));
    assert_eq!(o.get(), 0);
    assert!(!o.tick(HALF));
}

#[test]
fn driver_ticks_all_and_collects_removals_in_order() {
    let mut states = vec![
        (7u64, {
            let mut o = Opacity::new(UNIT);
            o.fade_out(UNIT);
            o
        }),
        (8u64, Opacity::new(HALF)),
        (9u64, {
            let mut o = Opacity::new(UNIT);
            o.fade_out(UNIT);
            o
        }),
    ];
    let removals = interpolate(&mut states, UNIT);
    assert_eq!(removals, vec![7, 9]);
    assert_eq!(states[0].1.get(), 0);
    assert_eq!(states[1].1.get(), HALF);
    assert_eq!(states[2].1.get(), 0);
    // A second frame adds no further removal requests.
    let removals = interpolate(&mut states, UNIT);
    assert!(removals.is_empty());
}

#[test]
fn tiny_tick_rounds_down() {
    // One time-unit of a half-range-per-second fade moves less than one
    // opacity unit: fixed-point motion rounds down to none.
    let mut o = Opacity::new_fade_in(2 * UNIT);
    o.tick(1);
    assert_eq!(o.get(), 0);
}

#[test]
fn interpolate_to_downward() {
    let mut o = Opacity::new(UNIT);
    o.interpolate_to(HALF, UNIT);
    assert!(!o.tick(HALF));
    // Halfway through one second, a quarter of the range is covered.
    assert_eq!(o.get(), UNIT - UNIT / 4);
    assert!(!o.tick(HALF));
    assert_eq!(o.get(), HALF);
}
