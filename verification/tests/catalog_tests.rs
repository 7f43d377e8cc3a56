use btm::{insert_desc, parse_catalog, reversed};

#[test]
fn parse_sorts_descending() {
    assert_eq!(parse_catalog(b"30\n10\n20\n"), vec![30, 20, 10]);
    assert_eq!(parse_catalog(b"1\n2\n3"), vec![3, 2, 1]);
}

#[test]
fn parse_skips_malformed_lines() {
    assert_eq!(parse_catalog(b"12\nx9\n7\n"), vec![12, 7]);
    assert_eq!(parse_catalog(b"12\n9 \n7\n"), vec![12, 7]);
    assert_eq!(parse_catalog(b"-3\n7\n"), vec![7]);
}

#[test]
fn parse_skips_empty_lines() {
    assert_eq!(parse_catalog(b"\n\n5\n\n"), vec![5]);
    assert_eq!(parse_catalog(b""), Vec::<u64>::new());
    assert_eq!(parse_catalog(b"\n"), Vec::<u64>::new());
}

#[test]
fn parse_deduplicates() {
    assert_eq!(parse_catalog(b"5\n5\n5\n"), vec![5]);
    assert_eq!(parse_catalog(b"7\n5\n7\n"), vec![7, 5]);
}

#[test]
fn parse_accepts_leading_zeros() {
    assert_eq!(parse_catalog(b"007\n"), vec![7]);
    assert_eq!(parse_catalog(b"0\n"), vec![0]);
}

#[test]
fn parse_skips_overflowing_values() {
    assert_eq!(parse_catalog(b"99999999999999999999999\n7\n"), vec![7]);
    // largest and smallest representable values survive
    assert_eq!(
        parse_catalog(b"18446744073709551615\n0\n"),
        vec![18446744073709551615, 0]
    );
    assert_eq!(parse_catalog(b"18446744073709551616\n"), Vec::<u64>::new());
}

#[test]
fn create_is_idempotent() {
    let mut snaps: Vec<u64> = vec![30, 20, 10];
    insert_desc(&mut snaps, 25);
    assert_eq!(snaps, vec![30, 25, 20, 10]);
    insert_desc(&mut snaps, 25);
    assert_eq!(snaps, vec![30, 25, 20, 10]);
    let dups = snaps.iter().filter(|h| **h == 25).count();
    assert_eq!(dups, 1);
}

#[test]
fn create_keeps_order_at_both_ends() {
    let mut snaps: Vec<u64> = Vec::new();
    insert_desc(&mut snaps, 20);
    insert_desc(&mut snaps, 40);
    insert_desc(&mut snaps, 10);
    assert_eq!(snaps, vec![40, 20, 10]);
}

#[test]
fn reversed_flips_order() {
    let snaps: Vec<u64> = vec![40, 20, 10];
    assert_eq!(reversed(&snaps), vec![10, 20, 40]);
    assert_eq!(reversed(&Vec::new()), Vec::<u64>::new());
}
