use btm::{resolve, rollback_target, BtmErr};

fn sample() -> Vec<u64> {
    vec![10, 20, 30, 50]
}

#[test]
fn resolve_latest_when_no_target() {
    assert_eq!(resolve(&sample(), None, false), Ok(50));
    assert_eq!(resolve(&sample(), None, true), Ok(50));
}

#[test]
fn resolve_exact_match() {
    assert_eq!(resolve(&sample(), Some(20), false), Ok(20));
    assert_eq!(resolve(&sample(), Some(20), true), Ok(20));
    assert_eq!(resolve(&sample(), Some(10), false), Ok(10));
    assert_eq!(resolve(&sample(), Some(50), true), Ok(50));
}

#[test]
fn resolve_lenient_falls_back_to_nearest_smaller() {
    assert_eq!(resolve(&sample(), Some(25), false), Ok(20));
    assert_eq!(resolve(&sample(), Some(49), false), Ok(30));
    assert_eq!(resolve(&sample(), Some(11), false), Ok(10));
}

#[test]
fn resolve_strict_miss_fails() {
    assert_eq!(resolve(&sample(), Some(25), true), Err(BtmErr::TargetNotFound));
    assert_eq!(resolve(&sample(), Some(1000), true), Err(BtmErr::TargetNotFound));
}

#[test]
fn resolve_older_than_all_fails() {
    assert_eq!(resolve(&sample(), Some(5), false), Err(BtmErr::NoSnapshots));
}

#[test]
fn resolve_newer_than_all_takes_latest() {
    assert_eq!(resolve(&sample(), Some(1000), false), Ok(50));
}

#[test]
fn resolve_empty_catalog_always_fails() {
    let empty: Vec<u64> = Vec::new();
    assert_eq!(resolve(&empty, None, false), Err(BtmErr::NoSnapshots));
    assert_eq!(resolve(&empty, Some(7), false), Err(BtmErr::NoSnapshots));
    assert_eq!(resolve(&empty, Some(7), true), Err(BtmErr::NoSnapshots));
}

#[test]
fn rollback_target_works_on_descending_catalog() {
    let desc: Vec<u64> = vec![50, 30, 20, 10];
    assert_eq!(rollback_target(&desc, None, false), Ok(50));
    assert_eq!(rollback_target(&desc, Some(25), false), Ok(20));
    assert_eq!(rollback_target(&desc, Some(25), true), Err(BtmErr::TargetNotFound));
    assert_eq!(rollback_target(&desc, Some(5), false), Err(BtmErr::NoSnapshots));
}
