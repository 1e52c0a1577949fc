use fvd_rs::track::run_steps;

#[test]
fn steps_until_the_segment_is_complete() {
    let points = run_steps(0u32, usize::MAX, |s: u32| if s < 5 { Some((s + 1, s * 10)) } else { None });
    assert_eq!(points, vec![0, 10, 20, 30, 40]);
}

#[test]
fn a_stall_drops_its_step_and_ends_the_segment() {
    // Speed falls by 3 each step from 10; the step that would reach 0 or less
    // emits nothing, and no step after it runs.
    let points = run_steps(10i32, usize::MAX, |speed: i32| {
        let next = speed - 3;
        if next <= 0 { None } else { Some((next, next)) }
    });
    assert_eq!(points, vec![7, 4, 1]);
}

#[test]
fn steps_stop_at_the_bound() {
    let points = run_steps(0u64, 3, |s: u64| Some((s + 1, s)));
    assert_eq!(points, vec![0, 1, 2]);
}

