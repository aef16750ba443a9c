use comment_threads::recency::age_bucket;
use comment_threads::recency::age_label;
use comment_threads::recency::age_magnitude;
use comment_threads::recency::age_seconds;
use comment_threads::recency::annotate;
use comment_threads::recency::decimal_string;
use comment_threads::recency::TimeUnit;
use comment_threads::recency::Timestamp;
use comment_threads::recency::{DAY, HOUR, MINUTE, MONTH, YEAR};

fn at(micros: i64) -> Timestamp {
    Timestamp { micros }
}

#[test]
fn age_of_now_is_zero_and_in_seconds() {
    let t = at(1_700_000_000_123_456);
    assert_eq!(age_seconds(t, t), 0);
    assert_eq!(age_bucket(0), (TimeUnit::Seconds, 0));
    assert_eq!(age_label(0), "0 seconds");
    assert_eq!(annotate(t, t), (0, String::from("0 seconds")));
}

#[test]
fn age_is_the_difference_in_whole_seconds() {
    assert_eq!(age_seconds(at(0), at(45_000_000)), 45);
    assert_eq!(age_seconds(at(0), at(45_999_999)), 45);
    assert_eq!(age_seconds(at(1_000_000), at(5_401_000_000)), 5400);
    assert_eq!(age_seconds(at(-2_500_000), at(2_500_000)), 5);
}

#[test]
fn age_of_the_future_is_negative_and_rounds_toward_zero() {
    assert_eq!(age_seconds(at(45_000_000), at(0)), -45);
    assert_eq!(age_seconds(at(1_999_999), at(0)), -1);
    assert_eq!(age_seconds(at(999_999), at(0)), 0);
    assert_eq!(age_seconds(at(0), at(999_999)), 0);
}

#[test]
fn age_never_overflows() {
    assert_eq!(age_seconds(at(i64::MIN), at(i64::MAX)), 18_446_744_073_709);
    assert_eq!(age_seconds(at(i64::MAX), at(i64::MIN)), -18_446_744_073_709);
}

#[test]
fn labels_of_common_ages() {
    assert_eq!(age_label(45), "45 seconds ago");
    assert_eq!(age_label(5400), "1 hour ago");
    assert_eq!(age_label(90000), "1 day ago");
}

#[test]
fn future_ages_are_labelled_from_now() {
    assert_eq!(age_label(-45), "45 seconds from now");
    assert_eq!(age_label(-5400), "1 hour from now");
    assert_eq!(age_label(-1), "1 second from now");
}

#[test]
fn singular_and_plural() {
    assert_eq!(age_label(1), "1 second ago");
    assert_eq!(age_label(2), "2 seconds ago");
    assert_eq!(age_label(60), "1 minute ago");
    assert_eq!(age_label(120), "2 minutes ago");
    assert_eq!(age_label(7200), "2 hours ago");
    assert_eq!(age_label(2 * 86_400), "2 days ago");
    assert_eq!(age_label(30 * 86_400), "1 month ago");
    assert_eq!(age_label(60 * 86_400), "2 months ago");
    assert_eq!(age_label(365 * 86_400), "1 year ago");
    assert_eq!(age_label(800 * 86_400), "2 years ago");
}

#[test]
fn bucket_boundaries() {
    assert_eq!(age_bucket(59), (TimeUnit::Seconds, 59));
    assert_eq!(age_bucket(60), (TimeUnit::Minutes, 1));
    assert_eq!(age_bucket(3599), (TimeUnit::Minutes, 59));
    assert_eq!(age_bucket(3600), (TimeUnit::Hours, 1));
    assert_eq!(age_bucket(86_399), (TimeUnit::Hours, 23));
    assert_eq!(age_bucket(86_400), (TimeUnit::Days, 1));
    assert_eq!(age_bucket(2_591_999), (TimeUnit::Days, 29));
    assert_eq!(age_bucket(2_592_000), (TimeUnit::Months, 1));
    assert_eq!(age_bucket(31_535_999), (TimeUnit::Months, 12));
    assert_eq!(age_bucket(31_536_000), (TimeUnit::Years, 1));
    assert_eq!(age_bucket(-3600), (TimeUnit::Hours, 1));
}

#[test]
fn unit_lengths() {
    assert_eq!(TimeUnit::Seconds.length(), 1);
    assert_eq!(TimeUnit::Minutes.length(), MINUTE);
    assert_eq!(TimeUnit::Hours.length(), HOUR);
    assert_eq!(TimeUnit::Days.length(), DAY);
    assert_eq!(TimeUnit::Months.length(), MONTH);
    assert_eq!(TimeUnit::Years.length(), YEAR);
    assert_eq!((MINUTE, HOUR, DAY, MONTH, YEAR), (60, 3600, 86_400, 2_592_000, 31_536_000));
    assert_eq!(TimeUnit::Days.name(1), "day");
    assert_eq!(TimeUnit::Days.name(0), "days");
}

#[test]
fn a_larger_age_never_has_a_smaller_unit() {
    let rank = |u: TimeUnit| match u {
        TimeUnit::Seconds => 0,
        TimeUnit::Minutes => 1,
        TimeUnit::Hours => 2,
        TimeUnit::Days => 3,
        TimeUnit::Months => 4,
        TimeUnit::Years => 5,
    };
    let ages = [0, 1, 59, 60, 61, 3599, 3600, 86_399, 86_400, 2_591_999, 2_592_000, 31_535_999, 31_536_000, i64::MAX];
    for pair in ages.windows(2) {
        assert!(rank(age_bucket(pair[0]).0) <= rank(age_bucket(pair[1]).0));
    }
}

#[test]
fn extreme_ages() {
    assert_eq!(age_magnitude(i64::MIN), 9_223_372_036_854_775_808);
    assert_eq!(age_magnitude(i64::MAX), 9_223_372_036_854_775_807);
    assert_eq!(age_label(i64::MIN), "292471208677 years from now");
    assert_eq!(age_label(i64::MAX), "292471208677 years ago");
}

#[test]
fn decimal_numerals() {
    assert_eq!(decimal_string(0), "0");
    assert_eq!(decimal_string(7), "7");
    assert_eq!(decimal_string(10), "10");
    assert_eq!(decimal_string(1234567890), "1234567890");
    assert_eq!(decimal_string(u64::MAX), "18446744073709551615");
}

#[test]
fn annotate_gives_age_and_its_label() {
    assert_eq!(annotate(at(0), at(90_000_000_000)), (90000, String::from("1 day ago")));
    assert_eq!(annotate(at(90_000_000_000), at(0)), (-90000, String::from("1 day from now")));
}
