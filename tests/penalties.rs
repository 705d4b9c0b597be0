use phtheirichthys::position::{Penalties, Penalty, RoutePenalty, Sail, RATIO_ONE};

fn pen(duration: u64, ratio: u32) -> Option<Penalty> {
    Some(Penalty { duration, ratio })
}

fn sample() -> Penalties {
    Penalties { gybe: pen(300, 500_000), sail_change: pen(120, 800_000), tack: pen(0, 700_000) }
}

#[test]
fn new_penalties_are_inactive() {
    let p = Penalties::new();
    assert!(!p.is_some());
    assert_eq!(p.min_penalty_duration(), None);
    assert_eq!(p.duration(), 0);
}

#[test]
fn is_some_ignores_spent_penalties() {
    let p = Penalties { gybe: None, sail_change: None, tack: pen(0, 500_000) };
    assert!(!p.is_some());
    assert!(sample().is_some());
}

#[test]
fn min_penalty_duration_ignores_spent_penalties() {
    assert_eq!(sample().min_penalty_duration(), Some(120));
    let spent = Penalties { gybe: None, sail_change: None, tack: pen(0, 700_000) };
    assert_eq!(spent.min_penalty_duration(), None);
}

#[test]
fn min_penalty_duration_within_duration() {
    let p = Penalties { gybe: pen(300, 500_000), sail_change: pen(120, 800_000), tack: None };
    let m = p.min_penalty_duration().unwrap();
    assert_eq!(m, 120);
    assert_eq!(p.duration(), 300);
    assert!(m <= p.duration());
}

#[test]
fn subtracting_longest_clears_everything() {
    let p = sample();
    let q = p.sub(p.duration());
    assert!(q.gybe.is_none() && q.sail_change.is_none() && q.tack.is_none());
    let r = p.sub(10_000);
    assert!(r.gybe.is_none() && r.sail_change.is_none() && r.tack.is_none());
}

#[test]
fn subtracting_part_keeps_the_rest() {
    let q = sample().sub(100);
    assert_eq!(q.gybe, pen(200, 500_000));
    assert_eq!(q.sail_change, pen(20, 800_000));
    assert_eq!(q.tack, None);
}

#[test]
fn navigate_multiplies_ratios() {
    let (left, ratio) = sample().navigate(60);
    // 0.5 * 0.8 * 0.7
    assert_eq!(ratio, 280_000);
    assert_eq!(left.gybe, pen(240, 500_000));
    assert_eq!(left.sail_change, pen(60, 800_000));
    assert_eq!(left.tack, None);
    let (_, one) = Penalties::new().navigate(60);
    assert_eq!(one, RATIO_ONE);
}

#[test]
fn to_vec_gives_segments_with_cumulative_ratios() {
    let segments = sample().to_vec();
    assert_eq!(
        segments,
        vec![Penalty { duration: 120, ratio: 400_000 }, Penalty { duration: 180, ratio: 500_000 }]
    );
}

#[test]
fn split_adds_full_speed_after_penalties() {
    let p = Penalties { gybe: None, sail_change: None, tack: pen(90, 600_000) };
    let (segments, left) = p.split(600);
    assert_eq!(
        segments,
        vec![Penalty { duration: 90, ratio: 600_000 }, Penalty { duration: 510, ratio: RATIO_ONE }]
    );
    assert!(left.tack.is_none());
    let total: u64 = segments.iter().map(|s| s.duration).sum();
    assert_eq!(total, 600);
}

#[test]
fn split_within_penalty() {
    let p = Penalties { gybe: None, sail_change: None, tack: pen(90, 600_000) };
    let (segments, left) = p.split(30);
    assert_eq!(segments, vec![Penalty { duration: 30, ratio: 600_000 }]);
    assert_eq!(left.tack, pen(60, 600_000));
    let (none, _) = p.split(0);
    assert!(none.is_empty());
}

#[test]
fn route_penalties_are_tagged() {
    let p = Penalties { gybe: pen(10, 500_000), sail_change: pen(20, 800_000), tack: pen(30, 700_000) };
    assert_eq!(
        p.to_route_penalties(),
        vec![
            RoutePenalty { duration: 10, ratio: 500_000, typ: 1 },
            RoutePenalty { duration: 30, ratio: 700_000, typ: 2 },
            RoutePenalty { duration: 20, ratio: 800_000, typ: 4 },
        ]
    );
    assert!(sample().to_route_penalties().len() == 2);
    assert_eq!(p.total(), 60);
}

#[test]
fn sail_codes() {
    let s = Sail::from_code(3);
    assert_eq!((s.index, s.id, s.auto), (2, 3, false));
    assert_eq!(s.code(), 3);
    let a = Sail::from_code(10);
    assert_eq!((a.index, a.id, a.auto), (0, 1, true));
    assert_eq!(a.code(), 10);
    let z = Sail::from_code(0);
    assert_eq!((z.index, z.id, z.auto), (0, 1, false));
    let b = Sail::from_index(4);
    assert_eq!((b.index, b.id, b.auto), (4, 5, false));
    assert_eq!(Sail::auto().code(), 10);
}

#[test]
fn sails_compare_by_id() {
    let manual = Sail::from_index(0);
    let auto = Sail::auto();
    assert!(manual == auto);
    assert!(manual.same(&auto));
    assert!(Sail::from_index(1) != auto);
}
