//! How long ago a comment was written: its age in whole seconds, and a coarse
//! label for that age in the largest unit that fits at least once.

use vstd::prelude::*;
use vstd::string::*;

verus! {

/// Seconds in a minute.
pub const MINUTE: u64 = 60;

/// Seconds in an hour.
pub const HOUR: u64 = 3_600;

/// Seconds in a day.
pub const DAY: u64 = 86_400;

/// Seconds in a month, which is counted as thirty days.
pub const MONTH: u64 = 2_592_000;

/// Seconds in a year, which is counted as 365 days.
pub const YEAR: u64 = 31_536_000;

/// Microseconds in a second.
pub const MICROS_PER_SECOND: i64 = 1_000_000;

/// A point in time: microseconds since 1970-01-01T00:00:00 UTC, leap seconds
/// not counted. Every `i64` is a valid timestamp.
#[derive(Clone, Copy, Debug, PartialEq, Eq, Structural)]
pub struct Timestamp {
    pub micros: i64,
}

impl View for Timestamp {
    type V = int;

    open spec fn view(&self) -> int {
        self.micros as int
    }
}

/// The units an age is reported in, from the finest to the coarsest.
#[derive(Clone, Copy, Debug, PartialEq, Eq, Structural)]
pub enum TimeUnit {
    Seconds,
    Minutes,
    Hours,
    Days,
    Months,
    Years,
}

impl TimeUnit {
    /// The length of one unit, in seconds.
    pub open spec fn seconds(self) -> int {
        match self {
            TimeUnit::Seconds => 1,
            TimeUnit::Minutes => MINUTE as int,
            TimeUnit::Hours => HOUR as int,
            TimeUnit::Days => DAY as int,
            TimeUnit::Months => MONTH as int,
            TimeUnit::Years => YEAR as int,
        }
    }

    /// The place of the unit in the order from `Seconds` (0) to `Years` (5).
    pub open spec fn rank(self) -> int {
        match self {
            TimeUnit::Seconds => 0,
            TimeUnit::Minutes => 1,
            TimeUnit::Hours => 2,
            TimeUnit::Days => 3,
            TimeUnit::Months => 4,
            TimeUnit::Years => 5,
        }
    }

    /// The English word for `count` of this unit: singular for one, plural
    /// otherwise.
    pub open spec fn word(self, count: int) -> Seq<char> {
        if count == 1 {
            match self {
                TimeUnit::Seconds => "second"@,
                TimeUnit::Minutes => "minute"@,
                TimeUnit::Hours => "hour"@,
                TimeUnit::Days => "day"@,
                TimeUnit::Months => "month"@,
                TimeUnit::Years => "year"@,
            }
        } else {
            match self {
                TimeUnit::Seconds => "seconds"@,
                TimeUnit::Minutes => "minutes"@,
                TimeUnit::Hours => "hours"@,
                TimeUnit::Days => "days"@,
                TimeUnit::Months => "months"@,
                TimeUnit::Years => "years"@,
            }
        }
    }

    /// The length of one unit, in seconds.
    pub fn length(self) -> (n: u64)
        ensures
            n == self.seconds(),
    {
        match self {
            TimeUnit::Seconds => 1,
            TimeUnit::Minutes => MINUTE,
            TimeUnit::Hours => HOUR,
            TimeUnit::Days => DAY,
            TimeUnit::Months => MONTH,
            TimeUnit::Years => YEAR,
        }
    }

    /// The English word for `count` of this unit.
    pub fn name(self, count: u64) -> (w: &'static str)
        ensures
            w@ == self.word(count as int),
    {
        if count == 1 {
            match self {
                TimeUnit::Seconds => "second",
                TimeUnit::Minutes => "minute",
                TimeUnit::Hours => "hour",
                TimeUnit::Days => "day",
                TimeUnit::Months => "month",
                TimeUnit::Years => "year",
            }
        } else {
            match self {
                TimeUnit::Seconds => "seconds",
                TimeUnit::Minutes => "minutes",
                TimeUnit::Hours => "hours",
                TimeUnit::Days => "days",
                TimeUnit::Months => "months",
                TimeUnit::Years => "years",
            }
        }
    }
}

/// The age in whole seconds of something made at `created`, seen at `now`
/// (both in microseconds): the difference, rounded toward zero. Negative
/// when `created` lies in the future.
pub open spec fn age_seconds_of(created: int, now: int) -> int {
    if now >= created {
        (now - created) / (MICROS_PER_SECOND as int)
    } else {
        -((created - now) / (MICROS_PER_SECOND as int))
    }
}

/// The absolute value of an age.
pub open spec fn magnitude(age: int) -> int {
    if age >= 0 {
        age
    } else {
        -age
    }
}

/// The unit an age of `m >= 0` seconds is reported in.
pub open spec fn bucket_unit(m: int) -> TimeUnit {
    if m >= YEAR as int {
        TimeUnit::Years
    } else if m >= MONTH as int {
        TimeUnit::Months
    } else if m >= DAY as int {
        TimeUnit::Days
    } else if m >= HOUR as int {
        TimeUnit::Hours
    } else if m >= MINUTE as int {
        TimeUnit::Minutes
    } else {
        TimeUnit::Seconds
    }
}

/// How many whole units of `bucket_unit(m)` fit into `m` seconds.
pub open spec fn bucket_count(m: int) -> int {
    match bucket_unit(m) {
        TimeUnit::Seconds => m,
        TimeUnit::Minutes => m / (MINUTE as int),
        TimeUnit::Hours => m / (HOUR as int),
        TimeUnit::Days => m / (DAY as int),
        TimeUnit::Months => m / (MONTH as int),
        TimeUnit::Years => m / (YEAR as int),
    }
}

/// The ten decimal digits.
pub open spec fn digit(d: int) -> char {
    seq!['0', '1', '2', '3', '4', '5', '6', '7', '8', '9'][d]
}

/// The decimal numeral of `n`, without leading zeros.
pub open spec fn decimal(n: nat) -> Seq<char>
    decreases n,
{
    if n < 10 {
        seq![digit(n as int)]
    } else {
        decimal(n / 10).push(digit((n % 10) as int))
    }
}

/// What follows the count and the unit: which side of now the age lies on.
pub open spec fn tense(age: int) -> Seq<char> {
    if age > 0 {
        " ago"@
    } else if age < 0 {
        " from now"@
    } else {
        ""@
    }
}

/// The label of an age: the count, the unit and the tense, as in
/// `45 seconds ago`, `1 hour from now` or `0 seconds`.
pub open spec fn age_label_of(age: int) -> Seq<char> {
    let m = magnitude(age);
    decimal(bucket_count(m) as nat) + " "@ + bucket_unit(m).word(bucket_count(m)) + tense(age)
}

/// The age in whole seconds of something made at `created`, seen at `now`.
pub fn age_seconds(created: Timestamp, now: Timestamp) -> (age: i64)
    ensures
        age == age_seconds_of(created@, now@),
{
    if now.micros >= created.micros {
        let d: i128 = now.micros as i128 - created.micros as i128;
        (d / (MICROS_PER_SECOND as i128)) as i64
    } else {
        let d: i128 = created.micros as i128 - now.micros as i128;
        -((d / (MICROS_PER_SECOND as i128)) as i64)
    }
}

/// The absolute value of an age; it always fits in a `u64`.
pub fn age_magnitude(age: i64) -> (m: u64)
    ensures
        m == magnitude(age as int),
{
    if age >= 0 {
        age as u64
    } else {
        (-(age as i128)) as u64
    }
}

/// The unit and the count an age is reported with: the largest unit that
/// fits into the age at least once (seconds for an age under a minute), and
/// how many times it fits.
pub fn age_bucket(age: i64) -> (bucket: (TimeUnit, u64))
    ensures
        bucket.0 == bucket_unit(magnitude(age as int)),
        bucket.1 == bucket_count(magnitude(age as int)),
{
    let m = age_magnitude(age);
    let unit = if m >= YEAR {
        TimeUnit::Years
    } else if m >= MONTH {
        TimeUnit::Months
    } else if m >= DAY {
        TimeUnit::Days
    } else if m >= HOUR {
        TimeUnit::Hours
    } else if m >= MINUTE {
        TimeUnit::Minutes
    } else {
        TimeUnit::Seconds
    };
    let count = match unit {
        TimeUnit::Seconds => m,
        TimeUnit::Minutes => m / MINUTE,
        TimeUnit::Hours => m / HOUR,
        TimeUnit::Days => m / DAY,
        TimeUnit::Months => m / MONTH,
        TimeUnit::Years => m / YEAR,
    };
    (unit, count)
}

/// One decimal digit as a string.
fn digit_str(d: u64) -> (s: &'static str)
    requires
        d < 10,
    ensures
        s@ == seq![digit(d as int)],
{
    proof {
        reveal_strlit("0");
        reveal_strlit("1");
        reveal_strlit("2");
        reveal_strlit("3");
        reveal_strlit("4");
        reveal_strlit("5");
        reveal_strlit("6");
        reveal_strlit("7");
        reveal_strlit("8");
        reveal_strlit("9");
    }
    let s = match d {
        0 => "0",
        1 => "1",
        2 => "2",
        3 => "3",
        4 => "4",
        5 => "5",
        6 => "6",
        7 => "7",
        8 => "8",
        _ => "9",
    };
    assert(s@ =~= seq![digit(d as int)]);
    s
}

/// Appends the decimal numeral of `n` to `out`.
fn push_decimal(out: &mut String, n: u64)
    ensures
        final(out)@ == old(out)@ + decimal(n as nat),
    decreases n,
{
    if n >= 10 {
        push_decimal(out, n / 10);
    }
    out.append(digit_str(n % 10));
}

/// The decimal numeral of `n`.
pub fn decimal_string(n: u64) -> (s: String)
    ensures
        s@ == decimal(n as nat),
{
    let mut s = String::new();
    push_decimal(&mut s, n);
    s
}

/// The words after the count and the unit.
fn tense_str(age: i64) -> (s: &'static str)
    ensures
        s@ == tense(age as int),
{
    if age > 0 {
        " ago"
    } else if age < 0 {
        " from now"
    } else {
        ""
    }
}

/// The label of an age, as in `45 seconds ago` or `1 hour from now`.
pub fn age_label(age: i64) -> (label: String)
    ensures
        label@ == age_label_of(age as int),
{
    let (unit, count) = age_bucket(age);
    let mut label = decimal_string(count);
    label.append(" ");
    label.append(unit.name(count));
    label.append(tense_str(age));
    label
}

/// The age in whole seconds of something made at `created`, seen at `now`,
/// and the label of that age.
pub fn annotate(created: Timestamp, now: Timestamp) -> (r: (i64, String))
    ensures
        r.0 == age_seconds_of(created@, now@),
        r.1@ == age_label_of(r.0 as int),
{
    let age = age_seconds(created, now);
    (age, age_label(age))
}

/// The unit of an age is the largest unit that fits into it at least once.
pub proof fn lemma_bucket_is_largest_fitting(m: int, other: TimeUnit)
    requires
        m >= 0,
    ensures
        bucket_unit(m) == TimeUnit::Seconds || m >= bucket_unit(m).seconds(),
        m >= other.seconds() ==> other.rank() <= bucket_unit(m).rank(),
        m < MINUTE ==> bucket_unit(m) == TimeUnit::Seconds && bucket_count(m) == m,
        m >= 1 ==> bucket_count(m) >= 1,
{
    let u = bucket_unit(m);
    if m >= 1 {
        assert(m / u.seconds() >= 1) by (nonlinear_arith)
            requires
                m >= u.seconds(),
                u.seconds() >= 1,
        ;
    }
}

/// A larger age is never reported in a smaller unit.
pub proof fn lemma_bucket_unit_monotonic(a: int, b: int)
    requires
        0 <= a <= b,
    ensures
        bucket_unit(a).rank() <= bucket_unit(b).rank(),
{
}

/// Whichever way the clock runs, an age keeps its unit and its count: they
/// depend on the magnitude alone.
pub proof fn lemma_bucket_ignores_sign(age: int)
    ensures
        bucket_unit(magnitude(age)) == bucket_unit(magnitude(-age)),
        bucket_count(magnitude(age)) == bucket_count(magnitude(-age)),
{
}

/// Something seen at the moment it was made has age zero, and the label of
/// age zero is `0 seconds`.
pub proof fn lemma_age_of_now(t: int)
    ensures
        age_seconds_of(t, t) == 0,
        bucket_unit(magnitude(0)) == TimeUnit::Seconds,
        bucket_count(magnitude(0)) == 0,
        age_label_of(0) == seq!['0', ' ', 's', 'e', 'c', 'o', 'n', 'd', 's'],
{
    reveal_strlit(" ");
    reveal_strlit("seconds");
    reveal_strlit("");
    assert(age_label_of(0) =~= seq!['0', ' ', 's', 'e', 'c', 'o', 'n', 'd', 's']);
}

} // verus!
