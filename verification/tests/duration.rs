use c10::{Duration, TICKS_PER_CENTIVAL, TICKS_PER_DAY, TICKS_PER_INTERVAL};

#[test]
fn zero_duration() {
    let zero = Duration::new(0, 0, 0);
    let (ints, cents, ticks) = zero.time_components();
    let zero = format!("{ints:02}:{cents:02}:{ticks:02}");
    println!("It is: {zero}");
    assert_eq!(zero, "00:00:00");
}

#[test]
fn one_day() {
    let day = Duration::new(0, 0, TICKS_PER_DAY);
    let (ints, cents, ticks) = day.time_components();
    let day = format!("{ints:02}:{cents:02}:{ticks:02}");
    println!("One day is: {day}");
}

#[test]
fn one_interval_displays_as_one() {
    let d = Duration::new(1, 0, 0);
    assert_eq!(d.time_components(), (1, 0, 0));
    let (ints, cents, ticks) = d.time_components();
    assert_eq!(format!("{ints:02}:{cents:02}:{ticks:02}"), "01:00:00");
}

#[test]
fn components_normalize_to_unit_ranges() {
    let d = Duration::new(0, 0, 150);
    assert_eq!(d.time_components(), (0, 1, 50));
}

#[test]
fn components_pack_back_to_the_tick_total() {
    let triples: [(u64, u64, u64); 5] = [(0, 0, 0), (1, 2, 3), (0, 0, 150), (7, 250, 99), (123, 45, 67)];
    for (i, c, t) in triples {
        let total = i * 10_000 + c * 100 + t;
        let (ri, rc, rt) = Duration::new(i, c, t).time_components();
        assert!(rc < 100 && rt < 100);
        assert_eq!(ri * 10_000 + rc * 100 + rt, total);
    }
}

#[test]
fn duration_from_micros() {
    assert_eq!(Duration::from_micros(0), Some(Duration::new(0, 0, 0)));
    assert_eq!(Duration::from_micros(86_399), Some(Duration::new(0, 0, 0)));
    assert_eq!(Duration::from_micros(86_400), Some(Duration::new(0, 0, 1)));
    let micros_per_interval = 86_400 * TICKS_PER_INTERVAL as u128;
    assert_eq!(Duration::from_micros(micros_per_interval), Some(Duration::new(1, 0, 0)));
    let micros_per_centival = 86_400 * TICKS_PER_CENTIVAL as u128;
    assert_eq!(Duration::from_micros(micros_per_centival), Some(Duration::new(0, 1, 0)));
    assert_eq!(Duration::from_micros(u128::MAX), None);
}
