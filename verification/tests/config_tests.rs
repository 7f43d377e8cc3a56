use btm::{BtmCfg, BtmErr, SnapAlgo, SnapMode, CAP_MAX};

#[test]
fn mode_names_parse_case_insensitively() {
    assert_eq!(SnapMode::from_string("zfs"), Ok(SnapMode::Zfs));
    assert_eq!(SnapMode::from_string("ZFS"), Ok(SnapMode::Zfs));
    assert_eq!(SnapMode::from_string("Btrfs"), Ok(SnapMode::Btrfs));
    assert_eq!(SnapMode::from_string("bTRfs"), Ok(SnapMode::Btrfs));
    assert_eq!(SnapMode::from_string("External"), Ok(SnapMode::External));
    assert_eq!(SnapMode::from_string("ext4"), Err(BtmErr::ConfigInvalid));
    assert_eq!(SnapMode::from_string(""), Err(BtmErr::ConfigInvalid));
    assert_eq!(SnapMode::from_string("zfs "), Err(BtmErr::ConfigInvalid));
}

#[test]
fn algo_names_parse_case_insensitively() {
    assert_eq!(SnapAlgo::from_string("fair"), Ok(SnapAlgo::Fair));
    assert_eq!(SnapAlgo::from_string("Fair"), Ok(SnapAlgo::Fair));
    assert_eq!(SnapAlgo::from_string("FADE"), Ok(SnapAlgo::Fade));
    assert_eq!(SnapAlgo::from_string("fearless"), Err(BtmErr::ConfigInvalid));
}

#[test]
fn defaults_match_the_documented_ones() {
    assert_eq!(SnapMode::default(), SnapMode::External);
    assert_eq!(SnapAlgo::default(), SnapAlgo::Fair);
    let c = BtmCfg::new("zfs/data", SnapMode::Zfs);
    assert_eq!(c.itv, 10);
    assert_eq!(c.cap, 100);
    assert_eq!(c.cap_clean_kept, 0);
    assert_eq!(c.mode, SnapMode::Zfs);
    assert_eq!(c.algo, SnapAlgo::Fair);
    assert_eq!(c.volume, "zfs/data");
}

#[test]
fn check_rejects_unusable_intervals() {
    let mut c = BtmCfg::new("zfs/data", SnapMode::Zfs);
    assert_eq!(c.check(), Ok(()));
    c.itv = 0;
    assert_eq!(c.check(), Err(BtmErr::ConfigInvalid));
    c.itv = 1;
    assert_eq!(c.check(), Ok(()));
    // 100^10 == 10^20 overflows u64
    c.itv = 100;
    assert_eq!(c.check(), Err(BtmErr::ConfigInvalid));
    // 84^10 is the largest power-of-itself that still fits
    c.itv = 84;
    assert_eq!(c.check(), Ok(()));
    c.itv = 85;
    assert_eq!(c.check(), Err(BtmErr::ConfigInvalid));
}

#[test]
fn capacity_is_hard_capped() {
    let mut c = BtmCfg::new("zfs/data", SnapMode::Zfs);
    assert_eq!(c.get_cap(), 100);
    c.cap = 1 << 60;
    assert_eq!(c.get_cap(), CAP_MAX);
    c.cap = CAP_MAX;
    assert_eq!(c.get_cap(), CAP_MAX);
}
