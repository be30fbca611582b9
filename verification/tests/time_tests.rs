use git_log_pretty::time::format_time;

#[test]
fn one_day_is_reported_in_days() {
    assert_eq!(format_time(1_000_000, 1_000_000 + 86400), "1 days ago");
}

#[test]
fn just_under_an_hour_is_reported_in_minutes() {
    assert_eq!(format_time(0, 3599), "59 minutes ago");
}

#[test]
fn half_a_minute_is_just_now() {
    assert_eq!(format_time(500, 530), "just now");
}

#[test]
fn units_change_at_their_thresholds() {
    assert_eq!(format_time(0, 59), "just now");
    assert_eq!(format_time(0, 60), "1 minutes ago");
    assert_eq!(format_time(0, 3600), "1 hours ago");
    assert_eq!(format_time(0, 86399), "23 hours ago");
    assert_eq!(format_time(0, 86400), "1 days ago");
}

#[test]
fn units_are_cut_off_not_rounded() {
    assert_eq!(format_time(0, 119), "1 minutes ago");
    assert_eq!(format_time(0, 7199), "1 hours ago");
    assert_eq!(format_time(0, 2 * 86400 - 1), "1 days ago");
    assert_eq!(format_time(0, 400 * 86400 + 5), "400 days ago");
}

#[test]
fn the_same_moment_is_just_now() {
    assert_eq!(format_time(1_700_000_000, 1_700_000_000), "just now");
}

#[test]
fn a_moment_to_come_is_just_now() {
    assert_eq!(format_time(2_000, 1_000), "just now");
    assert_eq!(format_time(i64::MAX, i64::MIN), "just now");
}

#[test]
fn the_longest_span_is_counted_without_overflow() {
    assert_eq!(format_time(i64::MIN, i64::MAX), "213503982334601 days ago");
}
