use c10::epochs::{year_from_seconds, year_from_ticks, year_to_days, year_to_seconds, year_to_ticks};

#[test]
fn epoch_lookup() {
    assert_eq!(year_to_seconds(2023), 1672531200);
}

#[test]
fn epoch_lookup_ticks() {
    assert_eq!(year_to_ticks(1971), 365_000_000);
}

#[test]
fn epochs_epoch_lookup_ticks() {
    assert_ne!(year_to_ticks(2023), 0);
}

#[test]
fn find_year_from_secs() {
    let year = year_from_seconds(1672531200 + 250000).unwrap();
    assert_eq!(2023, year);
}

#[test]
fn year_ticks_strictly_increase() {
    let mut prev = year_to_ticks(1970);
    for year in 1971..=2200 {
        let next = year_to_ticks(year);
        assert!(next > prev);
        prev = next;
    }
}

#[test]
fn year_boundary_round_trips() {
    for year in [1970, 1971, 1972, 2000, 2023, 2024, 2100] {
        assert_eq!(year_from_ticks(year_to_ticks(year)), Some(year));
    }
}

#[test]
fn tick_below_year_boundary_is_previous_year() {
    for year in [1971, 1972, 2000, 2023, 2024, 2100] {
        assert_eq!(year_from_ticks(year_to_ticks(year) - 1), Some(year - 1));
    }
}

#[test]
fn gregorian_year_lengths() {
    // 1971 is an ordinary year, 1972 and 2000 are leap years, 2100 is not.
    assert_eq!(year_to_days(1971) - year_to_days(1970), 365);
    assert_eq!(year_to_days(1973) - year_to_days(1972), 366);
    assert_eq!(year_to_days(2001) - year_to_days(2000), 366);
    assert_eq!(year_to_days(2101) - year_to_days(2100), 365);
}

#[test]
fn lookup_past_supported_span_fails() {
    assert_eq!(year_from_ticks(u64::MAX), None);
    assert_eq!(year_from_seconds(u64::MAX), None);
}
