use chrono::NaiveDate;
use cw_subscription::bitset::{BitSet, BitSetIndex, NonEmptyBitSet};
use cw_subscription::cron::{CronCompiled, WallClock};
use cw_subscription::cron_spec::{CronError, CronItem, CronSpec, ParseError};

fn ts(y: i32, mo: u32, d: u32, h: u32, mi: u32, s: u32) -> i64 {
    NaiveDate::from_ymd_opt(y, mo, d)
        .unwrap()
        .and_hms_opt(h, mi, s)
        .unwrap()
        .and_utc()
        .timestamp()
}

#[test]
fn cron_compile() {
    let full_cron = CronCompiled {
        minute: NonEmptyBitSet::from_range(0, 59),
        hour: NonEmptyBitSet::from_range(0, 23),
        mday: NonEmptyBitSet::from_range(1, 31),
        wday: NonEmptyBitSet::from_range(0, 6),
        month: NonEmptyBitSet::from_range(1, 12),
    };

    let full = "* * * * *".parse::<CronSpec>().unwrap();
    assert_eq!(full.compile().unwrap(), full_cron);

    let empty = "2-1 * * * *".parse::<CronSpec>().unwrap();
    assert_eq!(empty.compile().unwrap_err(), CronError::Empty);

    let steps = "*/2,*/3 1-10/3 * * *".parse::<CronSpec>().unwrap();
    steps.compile().unwrap();
}

fn same_set(a: NonEmptyBitSet, b: BitSet) -> bool {
    (0..64usize).all(|i| {
        let i = BitSetIndex::new(i).unwrap();
        a.test(i) == b.test(i)
    })
}

#[test]
fn cron_spec_cron_compile() {
    let full = "* * * * *".parse::<CronSpec>().unwrap();
    let compiled = full.compile().unwrap();
    assert!(same_set(compiled.minute, BitSet::from_range(0, 59)));
    assert!(same_set(compiled.hour, BitSet::from_range(0, 23)));
    assert!(same_set(compiled.mday, BitSet::from_range(1, 31)));
    assert!(same_set(compiled.wday, BitSet::from_range(0, 6)));
    assert!(same_set(compiled.month, BitSet::from_range(1, 12)));

    let empty = "2-1 * * * *".parse::<CronSpec>().unwrap();
    assert_eq!(empty.compile().unwrap_err(), CronError::Empty);

    let steps = "*/2,*/3 1-10/3 * * *".parse::<CronSpec>().unwrap();
    steps.compile().unwrap();
}

#[test]
fn cron_verificaton() {
    let cron = "* * * * *".parse::<CronSpec>().unwrap().compile().unwrap();
    assert!(!cron.matches(ts(2016, 7, 8, 9, 10, 11), 0));
    assert!(cron.matches(ts(2016, 7, 8, 9, 10, 0), 0));

    let cron = "0 0 29 2 *".parse::<CronSpec>().unwrap().compile().unwrap();
    assert!(cron.matches(ts(2016, 2, 29, 0, 0, 0), 0));

    let cron = "0 0 29 2 1".parse::<CronSpec>().unwrap().compile().unwrap();
    assert!(cron.matches(ts(2016, 2, 29, 0, 0, 0), 0));
    assert!(!cron.matches(ts(2020, 2, 29, 0, 0, 0), 0));

    let cron = "*/2,*/3 0-10/3 * * *"
        .parse::<CronSpec>()
        .unwrap()
        .compile()
        .unwrap();
    assert!(cron.matches(ts(2016, 2, 29, 0, 0, 0), 0));
    assert!(!cron.matches(ts(2016, 2, 29, 0, 1, 0), 0));
    assert!(cron.matches(ts(2016, 2, 29, 0, 2, 0), 0));
    assert!(cron.matches(ts(2016, 2, 29, 0, 3, 0), 0));
    assert!(cron.matches(ts(2016, 2, 29, 0, 4, 0), 0));
    assert!(!cron.matches(ts(2016, 2, 29, 0, 5, 0), 0));
    assert!(!cron.matches(ts(2016, 2, 29, 1, 0, 0), 0));
}

#[test]
fn full_spec_compiles_to_full_domains() {
    let c = CronSpec::parse("* * * * *").unwrap().compile().unwrap();
    assert_eq!((c.minute.min().get(), c.minute.max().get(), c.minute.len()), (0, 59, 60));
    assert_eq!((c.hour.min().get(), c.hour.max().get(), c.hour.len()), (0, 23, 24));
    assert_eq!((c.mday.min().get(), c.mday.max().get(), c.mday.len()), (1, 31, 31));
    assert_eq!((c.month.min().get(), c.month.max().get(), c.month.len()), (1, 12, 12));
    assert_eq!((c.wday.min().get(), c.wday.max().get(), c.wday.len()), (0, 6, 7));
}

#[test]
fn overlapping_steps_compile_to_union() {
    let c = CronSpec::parse("*/2,*/3 1-10/3 * * *").unwrap().compile().unwrap();
    // multiples of 2 or 3 below 60
    assert_eq!(c.minute.len(), 40);
    let hours: Vec<usize> = (0..24)
        .filter(|&h| c.hour.test(BitSetIndex::new(h).unwrap()))
        .collect();
    assert_eq!(hours, vec![1, 4, 7, 10]);
}

#[test]
fn parse_builds_tokens() {
    let spec = CronSpec::parse("5 1-3 */10 7/2 0,6").unwrap();
    let i = |n: usize| BitSetIndex::new(n).unwrap();
    assert_eq!(spec.minute, vec![CronItem::Value(i(5))]);
    assert_eq!(
        spec.hour,
        vec![CronItem::Range { start: i(1), end: i(3), step: i(1) }]
    );
    assert_eq!(
        spec.mday,
        vec![CronItem::Range { start: i(1), end: i(31), step: i(10) }]
    );
    assert_eq!(spec.month, vec![CronItem::Value(i(7))]);
    assert_eq!(spec.wday, vec![CronItem::Value(i(0)), CronItem::Value(i(6))]);
}

#[test]
fn parse_errors() {
    assert_eq!(CronSpec::parse("* * * *").unwrap_err(), ParseError::FieldCount);
    assert_eq!(CronSpec::parse("* * * * * *").unwrap_err(), ParseError::FieldCount);
    assert_eq!(CronSpec::parse("*  * * *").unwrap_err(), ParseError::InvalidNumber);
    assert_eq!(CronSpec::parse("*/2/3 * * * *").unwrap_err(), ParseError::StepSyntax);
    assert_eq!(CronSpec::parse("1-2-3 * * * *").unwrap_err(), ParseError::RangeSyntax);
    assert_eq!(CronSpec::parse("x * * * *").unwrap_err(), ParseError::InvalidNumber);
    assert_eq!(CronSpec::parse("1,,2 * * * *").unwrap_err(), ParseError::InvalidNumber);
    assert_eq!(CronSpec::parse("64 * * * *").unwrap_err(), ParseError::NumberOutOfRange);
    assert_eq!(
        CronSpec::parse("99999999999999999999999 * * * *").unwrap_err(),
        ParseError::InvalidNumber
    );
    assert_eq!(CronSpec::parse("*/0 * * * *").unwrap_err(), ParseError::NumberOutOfRange);
    assert_eq!(CronSpec::parse("-5 * * * *").unwrap_err(), ParseError::InvalidNumber);
    assert_eq!(ParseError::FieldCount.message(), "wrong number of cron components");
    assert_eq!(ParseError::NumberOutOfRange.message(), "cron number out of range");
}

#[test]
fn parse_accepts_plus_sign_and_leading_zeros() {
    let spec = CronSpec::parse("+5 007 * * *").unwrap();
    assert_eq!(spec.minute, vec![CronItem::Value(BitSetIndex::new(5).unwrap())]);
    assert_eq!(spec.hour, vec![CronItem::Value(BitSetIndex::new(7).unwrap())]);
}

#[test]
fn compile_out_of_range_fields() {
    let e = |s: &str| CronSpec::parse(s).unwrap().compile().unwrap_err();
    assert_eq!(e("60 * * * *"), CronError::OutOfRange);
    assert_eq!(e("* 24 * * *"), CronError::OutOfRange);
    assert_eq!(e("* * 0 * *"), CronError::OutOfRange);
    assert_eq!(e("* * 32 * *"), CronError::OutOfRange);
    assert_eq!(e("* * * 0 *"), CronError::OutOfRange);
    assert_eq!(e("* * * 13 *"), CronError::OutOfRange);
    assert_eq!(e("* * * * 7"), CronError::OutOfRange);
    // the first failing field decides
    assert_eq!(e("60 5-4 * * *"), CronError::OutOfRange);
    assert_eq!(e("5-4 60 * * *"), CronError::Empty);
}

#[test]
fn compile_empty_token_list_is_empty() {
    let mut spec = CronSpec::parse("* * * * *").unwrap();
    spec.hour.clear();
    assert_eq!(spec.compile().unwrap_err(), CronError::Empty);
}

#[test]
fn item_compile() {
    let i = |n: usize| BitSetIndex::new(n).unwrap();
    let r = CronItem::Range { start: i(3), end: i(20), step: i(5) }.compile().unwrap();
    assert_eq!(r, NonEmptyBitSet::from_items(&[3, 8, 13, 18]).unwrap());
    assert!(CronItem::Range { start: i(4), end: i(3), step: i(1) }.compile().is_none());
    assert_eq!(CronItem::Value(i(9)).compile().unwrap(), NonEmptyBitSet::new(i(9)));
}

#[test]
fn joint_restrictions_make_date_unreachable() {
    // 2016-02-29 was a Monday, 2020-02-29 a Saturday
    let cron = CronSpec::parse("0 0 29 2 1").unwrap().compile().unwrap();
    assert!(cron.matches(ts(2016, 2, 29, 0, 0, 0), 0));
    assert!(!cron.matches(ts(2020, 2, 29, 0, 0, 0), 0));
    let any_day = CronSpec::parse("0 0 29 2 *").unwrap().compile().unwrap();
    assert!(any_day.matches(ts(2020, 2, 29, 0, 0, 0), 0));
    // Feb 30 compiles and never matches
    let never = CronSpec::parse("0 0 30 2 *").unwrap().compile().unwrap();
    assert!(!never.matches(ts(2020, 3, 1, 0, 0, 0), 0));
}

#[test]
fn off_minute_timestamps_never_match() {
    let cron = CronSpec::parse("* * * * *").unwrap().compile().unwrap();
    let base = ts(2021, 5, 17, 12, 30, 0);
    assert!(cron.matches(base, 0));
    for s in 1..60 {
        assert!(!cron.matches(base + s, 0));
    }
    assert!(!cron.matches(base, 30));
}

#[test]
fn offset_reads_local_clock() {
    // 09:00 every day, read in UTC+8
    let cron = CronSpec::parse("0 9 * * *").unwrap().compile().unwrap();
    assert!(cron.matches(ts(2021, 5, 17, 1, 0, 0), 8 * 3600));
    assert!(!cron.matches(ts(2021, 5, 17, 9, 0, 0), 8 * 3600));
    assert!(cron.matches(ts(2021, 5, 17, 9, 0, 0), 0));
    // local date crosses midnight: 2021-05-16T23:00 UTC is 2021-05-17 in UTC+2
    let day = CronSpec::parse("0 1 17 5 *").unwrap().compile().unwrap();
    assert!(day.matches(ts(2021, 5, 16, 23, 0, 0), 2 * 3600));
}

#[test]
fn invalid_offset_matches_nothing() {
    let cron = CronSpec::parse("* * * * *").unwrap().compile().unwrap();
    assert!(!cron.matches(ts(2021, 5, 17, 1, 0, 0), 86400));
    assert!(!cron.matches(ts(2021, 5, 17, 1, 0, 0), -86400));
    assert!(cron.matches(ts(2021, 5, 17, 1, 0, 0), 86340));
}

#[test]
fn matches_before_1970() {
    // 1969-12-31 was a Wednesday
    let cron = CronSpec::parse("59 23 31 12 3").unwrap().compile().unwrap();
    assert!(cron.matches(-60, 0));
    assert!(!cron.matches(-120 + 60 * 60 * 24, 0));
}

#[test]
fn verify_reads_fields() {
    let cron = CronSpec::parse("30 12 17 5 1").unwrap().compile().unwrap();
    let t = WallClock {
        minute: 30,
        hour: 12,
        day: 17,
        month: 5,
        weekday: 1,
        second: 0,
        nanosecond: 0,
    };
    assert!(cron.verify(&t));
    assert!(!cron.verify(&WallClock { nanosecond: 1, ..t }));
    assert!(!cron.verify(&WallClock { weekday: 2, ..t }));
    assert!(!cron.verify(&WallClock { minute: 100, ..t }));
}
