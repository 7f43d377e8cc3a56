use btm::{
    fair_deletion_plan, insert_desc, parse_catalog, rollback_target, BtmErr, Resp, SnapMode,
};

#[test]
fn listing_to_rollback_pipeline() {
    // what the snapshot tool's listing pipeline hands over, unordered
    let catalog = parse_catalog(b"20\n50\n10\n30\n");
    assert_eq!(catalog, vec![50, 30, 20, 10]);
    assert_eq!(rollback_target(&catalog, Some(25), false), Ok(20));
    assert_eq!(rollback_target(&catalog, None, false), Ok(50));
    assert_eq!(rollback_target(&catalog, Some(9), false), Err(BtmErr::NoSnapshots));
}

#[test]
fn creations_then_pruning_stay_within_capacity() {
    let mut catalog: Vec<u64> = Vec::new();
    let mut h: u64 = 5;
    while h <= 95 {
        insert_desc(&mut catalog, h);
        h += 10;
    }
    assert_eq!(catalog.len(), 10);
    let plan = fair_deletion_plan(&catalog, 4);
    assert_eq!(plan, vec![55, 45, 35, 25, 15, 5]);
    // applying the plan leaves exactly the four most recent
    let retained: Vec<u64> = catalog
        .iter()
        .copied()
        .filter(|x| !plan.contains(x))
        .collect();
    assert_eq!(retained, vec![95, 85, 75, 65]);
}

#[test]
fn reply_decodes_from_raw_wire_bytes() {
    let p = Resp::from_bytes(b"{\"idx\":7,\"success\":true}").unwrap();
    assert_eq!(p.idx(), 7);
    assert!(p.success());
    let q = Resp::from_bytes(b"{\"idx\":123,\"success\":false}").unwrap();
    assert_eq!(q.idx(), 123);
    assert!(!q.success());
}

#[test]
fn mode_parsing_feeds_the_config() {
    let mode = SnapMode::from_string("ZFS").unwrap();
    let cfg = btm::BtmCfg::new("zfs/data", mode);
    assert_eq!(cfg.mode, SnapMode::Zfs);
    assert_eq!(cfg.check(), Ok(()));
}
