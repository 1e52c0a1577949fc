use fvd_rs::transitions::{find_range_index, first_containing, TransitionCurve};

fn index_for(starts: &[f64], time: f64) -> usize {
    find_range_index(starts.len(), |i: usize| starts[i] <= time)
}

#[test]
fn index_inside_a_middle_segment() {
    assert_eq!(index_for(&[0.0, 1.0, 2.5, 4.0], 3.0), 2);
}

#[test]
fn index_at_exact_segment_start() {
    assert_eq!(index_for(&[0.0, 1.0, 2.5, 4.0], 2.5), 2);
}

#[test]
fn index_at_zero_is_first_segment() {
    assert_eq!(index_for(&[0.0, 1.0, 2.5, 4.0], 0.0), 0);
}

#[test]
fn index_after_last_start_is_last_segment() {
    assert_eq!(index_for(&[0.0, 1.0, 2.5, 4.0], 9.0), 3);
}

#[test]
fn index_before_every_start_is_clamped_to_first() {
    assert_eq!(index_for(&[0.5, 1.0, 2.5], 0.1), 0);
}

#[test]
fn index_with_single_segment() {
    assert_eq!(index_for(&[0.0], 0.7), 0);
}

#[test]
fn index_matches_linear_scan_on_many_schedules() {
    for n in 1..=20usize {
        let starts: Vec<f64> = (0..n).map(|k| k as f64 * 0.75).collect();
        let mut t = 0.0;
        while t < n as f64 * 0.75 {
            let expected = starts.iter().rposition(|s| *s <= t).unwrap();
            assert_eq!(index_for(&starts, t), expected);
            t += 0.1;
        }
    }
}

#[test]
fn curve_kinds_compare_by_variant() {
    assert_eq!(TransitionCurve::Linear, TransitionCurve::Linear);
    assert_ne!(TransitionCurve::Plateau, TransitionCurve::QuarticBump);
}

fn containing_segment(lengths: &[f64], time: f64) -> Option<usize> {
    let mut starts = Vec::new();
    let mut acc = 0.0;
    for l in lengths {
        starts.push(acc);
        acc += l;
    }
    first_containing(lengths.len(), |i: usize| {
        starts[i] <= time && time <= starts[i] + lengths[i]
    })
}

#[test]
fn first_containing_picks_the_segment_holding_the_time() {
    assert_eq!(containing_segment(&[2.0, 1.0, 3.0], 2.5), Some(1));
    assert_eq!(containing_segment(&[2.0, 1.0, 3.0], 0.0), Some(0));
}

#[test]
fn first_containing_prefers_the_earlier_segment_on_a_shared_boundary() {
    assert_eq!(containing_segment(&[2.0, 1.0, 3.0], 2.0), Some(0));
}

#[test]
fn first_containing_is_none_past_the_end() {
    assert_eq!(containing_segment(&[2.0, 1.0], 3.5), None);
    assert_eq!(containing_segment(&[], 0.0), None);
}

#[test]
fn first_containing_finds_the_bracket_where_running_distance_reaches_the_query() {
    let reached = [0.5, 1.0, 1.5, 2.0];
    assert_eq!(first_containing(4, |i: usize| reached[i] >= 1.2), Some(2));
    assert_eq!(first_containing(4, |i: usize| reached[i] >= 1.0), Some(1));
    assert_eq!(first_containing(4, |i: usize| reached[i] >= 2.5), None);
}

#[test]
fn ease_in_out_shapes_end_at_one() {
    assert_eq!(TransitionCurve::Linear.end_value(), 1);
    assert_eq!(TransitionCurve::Quadratic.end_value(), 1);
    assert_eq!(TransitionCurve::Cubic.end_value(), 1);
}

#[test]
fn bump_shapes_end_at_zero() {
    assert_eq!(TransitionCurve::QuarticBump.end_value(), 0);
    assert_eq!(TransitionCurve::Plateau.end_value(), 0);
}

#[test]
fn end_values_match_the_shape_formulas_at_one() {
    let t: f64 = 1.0;
    let quadratic = 1.0 - (-2.0 * t + 2.0).powf(2.0) / 2.0;
    let cubic = 1.0 - (-2.0 * t + 2.0).powf(3.0) / 2.0;
    let plateau = 1.0 - (-15.0 * ((1.0 - (2.0 * t - 1.0).abs()).powi(3))).exp();
    let quartic = t * t * (16.0 + t * (-32.0 + t * 16.0));
    assert_eq!(f64::from(TransitionCurve::Linear.end_value()), t);
    assert_eq!(f64::from(TransitionCurve::Quadratic.end_value()), quadratic);
    assert_eq!(f64::from(TransitionCurve::Cubic.end_value()), cubic);
    assert_eq!(f64::from(TransitionCurve::Plateau.end_value()), plateau);
    assert_eq!(f64::from(TransitionCurve::QuarticBump.end_value()), quartic);
}
