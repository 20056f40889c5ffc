use cellsim::fixed::{
    clamp, clamp_sum, floor_div, isqrt, magnitude, perturb, saturating, scale, sigmoid,
    sigmoid_inplace, span, tanh, tanh_inplace, turn, HALF_PI, LIMIT, ONE, PI, TAU,
};
use cellsim::samples::Samples;
use cellsim::timer::Timer;

#[test]
fn tanh_matches_reference_values() {
    assert_eq!(tanh(0), 0);
    assert_eq!(tanh(125_000), 124_353);
    assert_eq!(tanh(500_000), 462_117);
    assert_eq!(tanh(1_000_000), 761_594);
    assert_eq!(tanh(2_000_000), 964_028);
    assert_eq!(tanh(3_000_000), 995_055);
    assert_eq!(tanh(5_000_000), 999_909);
    assert_eq!(tanh(7_000_000), 999_998);
    assert_eq!(tanh(8_000_000), ONE);
    assert_eq!(tanh(1), 1);
    assert_eq!(tanh(i64::MAX), ONE);
    assert_eq!(tanh(i64::MIN), -ONE);
}

#[test]
fn tanh_is_odd_and_bounded() {
    let mut x: i64 = -10_000_000;
    let mut last = -ONE;
    while x <= 10_000_000 {
        let t = tanh(x);
        assert!(-ONE <= t && t <= ONE);
        assert!(last <= t);
        assert_eq!(tanh(-x), -t);
        assert_eq!(sigmoid(x) + sigmoid(-x), if x == 0 { 2 * sigmoid(0) } else { ONE });
        last = t;
        x += 37_123;
    }
}

#[test]
fn tanh_tracks_the_real_function() {
    let mut x: i64 = -20_000_000;
    while x <= 20_000_000 {
        let exact = (x as f64 / 1e6).tanh();
        let got = tanh(x) as f64 / 1e6;
        assert!((exact - got).abs() < 1e-6, "tanh({}) = {} but {}", x, got, exact);
        x += 10_007;
    }
}

#[test]
fn sigmoid_matches_reference_values() {
    assert_eq!(sigmoid(0), 500_000);
    assert_eq!(sigmoid(250_000), 562_176);
    assert_eq!(sigmoid(1_000_000), 731_059);
    assert_eq!(sigmoid(-1_000_000), 268_941);
    assert_eq!(sigmoid(2_000_000), 880_797);
    assert_eq!(sigmoid(5_000_000), 993_307);
    assert_eq!(sigmoid(-5_000_000), 6_693);
    assert_eq!(sigmoid(13_000_000), 999_998);
    assert_eq!(sigmoid(-13_000_000), 2);
    assert_eq!(sigmoid(16_000_000), ONE);
    assert_eq!(sigmoid(LIMIT), ONE);
    assert_eq!(sigmoid(-LIMIT), 0);
    assert_eq!(sigmoid(i64::MIN), 0);
    assert_eq!(sigmoid(i64::MAX), ONE);
}

#[test]
fn sigmoid_tracks_the_logistic_function() {
    let mut x: i64 = -30_000_000;
    while x <= 30_000_000 {
        let exact = 1.0 / (1.0 + (-(x as f64) / 1e6).exp());
        let got = sigmoid(x) as f64 / 1e6;
        assert!((exact - got).abs() < 1e-6, "sigmoid({}) = {} but {}", x, got, exact);
        x += 10_007;
    }
}

#[test]
fn activation_functions_work_in_place() {
    let mut a: i64 = 1_000_000;
    tanh_inplace(&mut a);
    assert_eq!(a, 761_594);
    let mut b: i64 = 1_000_000;
    sigmoid_inplace(&mut b);
    assert_eq!(b, 731_059);
}

#[test]
fn isqrt_rounds_down() {
    assert_eq!(isqrt(0), 0);
    assert_eq!(isqrt(1), 1);
    assert_eq!(isqrt(3), 1);
    assert_eq!(isqrt(4), 2);
    assert_eq!(isqrt(99), 9);
    assert_eq!(isqrt(250_000_000_000_000_000), 500_000_000);
    assert_eq!(isqrt(1_999_999_996_000_000_002), 1_414_213_560);
    assert_eq!(isqrt(u64::MAX), 4_294_967_295);
}

#[test]
fn scale_rounds_down_and_saturates() {
    assert_eq!(scale(1_500_000, 10_000), 15_000);
    assert_eq!(scale(-1_500_000, 10_000), -15_000);
    assert_eq!(scale(1, 10_000), 0);
    assert_eq!(scale(-1, 10_000), -1);
    assert_eq!(scale(2_000_000, 15_000_000_000), 30_000_000_000);
    assert_eq!(scale(i64::MAX, i64::MAX), LIMIT);
    assert_eq!(scale(i64::MIN, i64::MAX), -LIMIT);
    assert_eq!(scale(7, 0), 0);
}

#[test]
fn floor_div_rounds_towards_minus_infinity() {
    assert_eq!(floor_div(7, 2), 3);
    assert_eq!(floor_div(-7, 2), -4);
    assert_eq!(floor_div(-8, 2), -4);
    assert_eq!(floor_div(0, 5), 0);
    assert_eq!(floor_div(-1, 1_000_000), -1);
}

#[test]
fn sums_saturate_at_the_limit() {
    assert_eq!(perturb(5, 7), 12);
    assert_eq!(perturb(LIMIT, 1), LIMIT);
    assert_eq!(perturb(-LIMIT, -1), -LIMIT);
    assert_eq!(perturb(i64::MAX, i64::MAX), LIMIT);
    assert_eq!(perturb(i64::MIN, i64::MIN), -LIMIT);
    assert_eq!(saturating(LIMIT as i128 + 5), LIMIT);
    assert_eq!(saturating(-3), -3);
}

#[test]
fn clamps_keep_values_in_their_interval() {
    assert_eq!(clamp(5, 0, 10), 5);
    assert_eq!(clamp(-5, 0, 10), 0);
    assert_eq!(clamp(15, 0, 10), 10);
    assert_eq!(clamp_sum(1_570_000, 15_000, -HALF_PI, HALF_PI), HALF_PI);
    assert_eq!(clamp_sum(-1_570_000, -15_000, -HALF_PI, HALF_PI), -HALF_PI);
    assert_eq!(clamp_sum(100, 15, -HALF_PI, HALF_PI), 115);
    assert_eq!(clamp_sum(i64::MAX, i64::MAX, -HALF_PI, HALF_PI), HALF_PI);
}

#[test]
fn magnitudes_and_spans() {
    assert_eq!(magnitude(-5), 5);
    assert_eq!(magnitude(5), 5);
    assert_eq!(magnitude(i64::MIN), 9_223_372_036_854_775_808);
    assert_eq!(span(3, -4), 7);
    assert_eq!(span(-4, 3), 7);
    assert_eq!(span(i64::MIN, i64::MAX), u64::MAX);
}

#[test]
fn turn_wraps_whole_turns() {
    assert_eq!(turn(0, 100_000), 100_000);
    assert_eq!(turn(0, -100_000), -100_000);
    assert_eq!(turn(3_141_592, 100_000), -3_041_593);
    assert_eq!(turn(-3_141_593, -100_000), 3_041_592);
    assert_eq!(turn(10 * TAU, 5), 5);
    assert_eq!(turn(PI, 0), -3_141_592);
    let r = turn(i64::MAX, i64::MAX);
    assert!(-PI <= r && r < TAU - PI);
    let r = turn(i64::MIN, i64::MIN);
    assert!(-PI <= r && r < TAU - PI);
}

#[test]
fn thinking_cadence_fires_every_third_tick() {
    let mut t = Timer::new(50_000);
    t.tick(16_667);
    assert!(!t.finished());
    assert_eq!(t.elapsed, 16_667);
    t.tick(16_667);
    assert!(!t.finished());
    t.tick(16_667);
    assert!(t.finished());
    assert_eq!(t.times_finished_this_tick(), 1);
    assert_eq!(t.elapsed, 1);
    t.tick(16_667);
    assert!(!t.finished());
    assert_eq!(t.times_finished_this_tick(), 0);
}

#[test]
fn timer_counts_every_period_of_a_slow_tick() {
    let mut t = Timer::new(50_000);
    t.tick(175_000);
    assert!(t.finished());
    assert_eq!(t.times_finished_this_tick(), 3);
    assert_eq!(t.elapsed, 25_000);
    let mut t = Timer::new(1);
    t.elapsed = u64::MAX;
    t.tick(u64::MAX);
    assert_eq!(t.times_finished_this_tick(), u64::MAX);
    assert_eq!(t.elapsed, 0);
}

#[test]
fn timer_without_period_always_fires() {
    let mut t = Timer::new(0);
    t.tick(5);
    assert!(t.finished());
    assert_eq!(t.times_finished_this_tick(), 0xffff_ffff);
    assert_eq!(t.elapsed, 0);
}

#[test]
fn samples_run_out_to_zero() {
    let mut s = Samples::new(vec![3, -4]);
    assert_eq!(s.remaining(), 2);
    assert_eq!(s.draw(), 3);
    assert_eq!(s.draw(), -4);
    assert_eq!(s.remaining(), 0);
    assert_eq!(s.draw(), 0);
    assert_eq!(s.draw(), 0);
    assert_eq!(s.remaining(), 0);
}
