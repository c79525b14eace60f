use miniserve::dostime::dos_date_time;

fn date(year: u16, month: u16, day: u16) -> u16 {
    ((year - 1980) << 9) | (month << 5) | day
}

fn time(hour: u16, minute: u16, second: u16) -> u16 {
    (hour << 11) | (minute << 5) | (second / 2)
}

#[test]
fn new_year_2020() {
    assert_eq!(dos_date_time(1_577_836_800), (20513, 0));
    assert_eq!(dos_date_time(1_577_836_800), (date(2020, 1, 1), time(0, 0, 0)));
}

#[test]
fn leap_day_2000() {
    assert_eq!(dos_date_time(951_827_696), (date(2000, 2, 29), time(12, 34, 56)));
    assert_eq!(dos_date_time(951_827_696), (10333, 25692));
}

#[test]
fn day_after_leap_day_and_end_of_year() {
    assert_eq!(dos_date_time(951_868_800), (date(2000, 3, 1), 0));
    assert_eq!(dos_date_time(1_704_067_199), (date(2023, 12, 31), time(23, 59, 59)));
    assert_eq!(dos_date_time(4_107_542_400), (date(2100, 3, 1), 0));
    assert_eq!(dos_date_time(4_107_456_000), (date(2100, 2, 28), 0));
}

#[test]
fn first_and_last_moment_that_fit() {
    assert_eq!(dos_date_time(315_532_800), (date(1980, 1, 1), 0));
    assert_eq!(dos_date_time(4_354_819_199), (date(2107, 12, 31), time(23, 59, 59)));
}

#[test]
fn moments_outside_the_range_take_the_nearest_date() {
    assert_eq!(dos_date_time(0), (33, 0));
    assert_eq!(dos_date_time(315_532_799), (33, 0));
    assert_eq!(dos_date_time(4_354_819_200), (65439, 49021));
    assert_eq!(dos_date_time(u64::MAX), (date(2107, 12, 31), time(23, 59, 58)));
}
