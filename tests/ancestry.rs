use phtheirichthys::ancestry::{landed, lineage};

#[test]
fn landing_through_near_ancestors() {
    // a chain 0 <- 1 <- ... <- 12, with node 1 on the buoy
    let parents: Vec<Option<usize>> = (0..13).map(|i| if i == 0 { None } else { Some(i - 1) }).collect();
    let mut reached = vec![false; 13];
    reached[1] = true;
    assert!(landed(&parents, &reached, 1));
    assert!(landed(&parents, &reached, 11));
    // eleven generations below: too far up
    assert!(!landed(&parents, &reached, 12));
    assert!(!landed(&parents, &reached, 0));
}

#[test]
fn landing_stops_at_the_start() {
    let parents = vec![None, Some(0), Some(1)];
    assert!(!landed(&parents, &vec![false, false, false], 2));
    assert!(landed(&parents, &vec![true, false, false], 2));
}

#[test]
fn way_from_the_start() {
    let parents = vec![None, Some(0), Some(0), Some(2), Some(3)];
    assert_eq!(lineage(&parents, 4), vec![0, 2, 3, 4]);
    assert_eq!(lineage(&parents, 0), vec![0]);
    assert_eq!(lineage(&parents, 1), vec![0, 1]);
}
