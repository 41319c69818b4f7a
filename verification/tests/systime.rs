use c10::SystemTime;

#[test]
fn epoch_instant() {
    let t = SystemTime::from_unix(0, 0).unwrap();
    assert_eq!(t.time_components(), (0, 0, 0));
    assert_eq!(t.date_components(), Some((1970, 1, 1)));
}

#[test]
fn one_day_after_epoch() {
    let t = SystemTime::from_unix(86_400, 0).unwrap();
    assert_eq!(t.time_components(), (0, 0, 0));
    assert_eq!(t.date_components(), Some((1970, 1, 2)));
}

#[test]
fn new_year_2023() {
    let t = SystemTime::from_unix(1_672_531_200, 0).unwrap();
    assert_eq!(t.time_components(), (0, 0, 0));
    assert_eq!(t.date_components(), Some((2023, 1, 1)));
}

#[test]
fn sub_second_term_uses_the_exact_ratio() {
    // 625 ticks pass in 54 seconds, so just under one second is 11 ticks:
    // 999,999,999 * 625 / 54,000,000,000 truncates to 11.
    let t = SystemTime::from_unix(0, 999_999_999).unwrap();
    assert_eq!(t.time_components(), (0, 0, 11));
}

#[test]
fn out_of_range_samples_fail() {
    assert_eq!(SystemTime::from_unix(u64::MAX, 0), None);
    let t = SystemTime::from_unix(40_000_000_000_000, 0).unwrap();
    assert_eq!(t.date_components(), None);
}
