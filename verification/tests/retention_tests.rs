use btm::{
    clean_deletion_plan, fade_deletion_plan, fair_deletion_plan, BtmCfg, SnapAlgo, SnapMode,
};

fn cfg(itv: u64, cap: u64, algo: SnapAlgo) -> BtmCfg {
    BtmCfg {
        itv,
        cap,
        cap_clean_kept: 0,
        mode: SnapMode::Zfs,
        algo,
        volume: String::from("zfs/data"),
    }
}

#[test]
fn eligibility_counts_down_from_max() {
    let c = cfg(10, 100, SnapAlgo::Fair);
    assert!(c.is_eligible(u64::MAX));
    assert!(c.is_eligible(u64::MAX - 10));
    assert!(c.is_eligible(u64::MAX - 20));
    assert!(!c.is_eligible(u64::MAX - 1));
    assert!(!c.is_eligible(u64::MAX - 11));
    // u64::MAX ends in 5, so the small eligible indices end in 5 too
    assert!(c.is_eligible(5));
    assert!(c.is_eligible(15));
    assert!(!c.is_eligible(6));
    assert!(!c.is_eligible(0));
}

#[test]
fn eligibility_exactly_one_per_window() {
    let c = cfg(7, 100, SnapAlgo::Fair);
    let mut hits = 0;
    let mut h: u64 = 100;
    while h <= 106 {
        if c.is_eligible(h) {
            hits += 1;
        }
        h += 1;
    }
    assert_eq!(hits, 1);
}

#[test]
fn fair_plan_deletes_beyond_capacity() {
    let snaps: Vec<u64> = vec![50, 40, 30, 20, 10];
    assert_eq!(fair_deletion_plan(&snaps, 3), vec![20, 10]);
}

#[test]
fn fair_plan_is_empty_within_capacity() {
    let snaps: Vec<u64> = vec![50, 40, 30, 20, 10];
    assert_eq!(fair_deletion_plan(&snaps, 5), Vec::<u64>::new());
    assert_eq!(fair_deletion_plan(&snaps, 4096), Vec::<u64>::new());
    assert_eq!(fair_deletion_plan(&Vec::new(), 0), Vec::<u64>::new());
}

#[test]
fn fair_plan_capacity_zero_deletes_all() {
    let snaps: Vec<u64> = vec![9, 8];
    assert_eq!(fair_deletion_plan(&snaps, 0), vec![9, 8]);
}

#[test]
fn fade_plan_keeps_aligned_entries() {
    // interval 10, capacity 20: chunks of 2; u64::MAX ends in ...15, so the
    // first chunk keeps indices ending in 5, the second chunk those ending
    // in 15 modulo 100
    let snaps: Vec<u64> = vec![115, 25, 15];
    assert_eq!(fade_deletion_plan(&snaps, 10, 20), Vec::<u64>::new());
}

#[test]
fn fade_plan_thins_older_chunks_harder() {
    // 5 is aligned to 10^1 but not to 10^2, and position 2 falls in chunk 2
    let snaps: Vec<u64> = vec![25, 15, 5];
    assert_eq!(fade_deletion_plan(&snaps, 10, 20), vec![5]);
}

#[test]
fn fade_plan_deletes_misaligned_in_first_chunk() {
    let snaps: Vec<u64> = vec![26, 15, 5];
    assert_eq!(fade_deletion_plan(&snaps, 10, 20), vec![26, 5]);
}

#[test]
fn fade_plan_tolerates_small_catalogs() {
    let snaps: Vec<u64> = vec![25, 15];
    assert_eq!(fade_deletion_plan(&snaps, 10, 20), Vec::<u64>::new());
    assert_eq!(fade_deletion_plan(&Vec::new(), 10, 20), Vec::<u64>::new());
}

#[test]
fn fade_plan_capacity_under_step_count_deletes_tail() {
    // capacity 0 means chunks of 0: everything beyond position 0 goes
    let snaps: Vec<u64> = vec![9, 8];
    assert_eq!(fade_deletion_plan(&snaps, 10, 0), vec![9, 8]);
}

#[test]
fn policy_plan_dispatches_on_algorithm() {
    let snaps: Vec<u64> = vec![50, 40, 30, 20, 10];
    let fair = cfg(10, 3, SnapAlgo::Fair);
    assert_eq!(fair.deletion_plan(&snaps), vec![20, 10]);
    let fade = cfg(10, 20, SnapAlgo::Fade);
    let snaps2: Vec<u64> = vec![25, 15, 5];
    assert_eq!(fade.deletion_plan(&snaps2), vec![5]);
}

#[test]
fn clean_plan_keeps_most_recent_deletes_oldest_first() {
    let snaps: Vec<u64> = vec![50, 40, 30];
    assert_eq!(clean_deletion_plan(&snaps, 1), vec![30, 40]);
    assert_eq!(clean_deletion_plan(&snaps, 0), vec![30, 40, 50]);
    assert_eq!(clean_deletion_plan(&snaps, 3), Vec::<u64>::new());
    assert_eq!(clean_deletion_plan(&snaps, 7), Vec::<u64>::new());
}
