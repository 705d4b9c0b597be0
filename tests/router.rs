use phtheirichthys::router::{
    default_steps, isochrone_color, jump_duration, path_breaks, stale_count, step_for, NavDuration,
    Step,
};

#[test]
fn default_schedule() {
    let steps = default_steps();
    assert_eq!(steps.len(), 4);
    assert_eq!(steps[0], Step { horizon: 3_600, step: 600 });
    assert_eq!(steps[3], Step { horizon: 9_999 * 3_600, step: 21_600 });
}

#[test]
fn step_by_elapsed_time() {
    let steps = default_steps();
    assert_eq!(step_for(&steps, 0), 600);
    assert_eq!(step_for(&steps, 3_599), 600);
    assert_eq!(step_for(&steps, 3_600), 3_600);
    assert_eq!(step_for(&steps, 30_000), 180);
    assert_eq!(step_for(&steps, 100_000), 21_600);
    assert_eq!(step_for(&steps, 40_000_000), 21_600);
    let single = vec![Step { horizon: 10, step: 5 }];
    assert_eq!(step_for(&single, 100), 5);
}

#[test]
fn jump_stretches_to_whole_steps() {
    assert_eq!(jump_duration(600, 300), 600);
    assert_eq!(jump_duration(600, 600), 600);
    assert_eq!(jump_duration(600, 601), 1_200);
    assert_eq!(jump_duration(600, 660), 1_200);
    assert_eq!(jump_duration(600, 1_800), 1_800);
    assert_eq!(jump_duration(600, 1_859), 2_400);
    assert_eq!(jump_duration(180, 200), 360);
    assert_eq!(jump_duration(180, 400), 540);
    assert_eq!(jump_duration(30, 45), 60);
}

#[test]
fn stale_slices() {
    let pending = vec![100, 200, 300, 400];
    assert_eq!(stale_count(&pending, 0, 250), 2);
    assert_eq!(stale_count(&pending, 0, 100), 0);
    assert_eq!(stale_count(&pending, 300, 200), 4);
    assert_eq!(stale_count(&vec![], 0, 10), 0);
}

#[test]
fn isochrone_marks() {
    assert_eq!(isochrone_color(1_440, 10, false), Some(24));
    assert_eq!(isochrone_color(360, 10, false), Some(6));
    assert_eq!(isochrone_color(60, 10, false), Some(1));
    assert_eq!(isochrone_color(65, 10, false), Some(1));
    assert_eq!(isochrone_color(70, 10, false), None);
    assert_eq!(isochrone_color(70, 10, true), Some(0));
}

#[test]
fn isochrone_paths_break_on_gaps() {
    assert_eq!(path_breaks(&vec![-95, -90, 0, 3, 10, 20]), vec![2, 4, 5]);
    assert_eq!(path_breaks(&vec![0, 1, 2]), vec![0]);
    assert!(path_breaks(&vec![]).is_empty());
}

#[test]
fn nav_durations() {
    let d = NavDuration::zero().add(600).add(300);
    assert_eq!((d.absolute, d.relative), (900, 300));
    assert!(NavDuration::zero().is_before(&d));
    assert!(d == NavDuration { absolute: 900, relative: 5 });
}

#[test]
fn visible_nodes() {
    let after_hour = NavDuration::zero().add(3_000).add(900);
    assert!(after_hour.visible(false));
    let mid_hour = NavDuration::zero().add(3_600).add(1_200);
    assert!(!mid_hour.visible(false));
    assert!(mid_hour.visible(true));
}
