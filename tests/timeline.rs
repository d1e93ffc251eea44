use chrono::{Datelike, NaiveDate, Weekday};

use opening_hours::combine::{schedule_at, RuleDay, RuleOperator};
use opening_hours::schedule::{RuleKind, Schedule};
use opening_hours::timeline::{
    intervals, is_closed, is_open, is_unknown, iter_from, iter_range, next_change, next_change_hint, state,
    DateTimeRange, Error, DATE_LIMIT,
};

fn day(y: i32, m: u32, d: u32) -> u64 {
    NaiveDate::from_ymd_opt(y, m, d).unwrap().num_days_from_ce() as u64
}

fn at(y: i32, m: u32, d: u32, h: u64, min: u64) -> u64 {
    day(y, m, d) * 1440 + h * 60 + min
}

fn weekday(d: u64) -> Weekday {
    NaiveDate::from_num_days_from_ce_opt(d as i32).unwrap().weekday()
}

/// "Mo 14:00-25:30"
fn monday_late(d: u64) -> Schedule {
    schedule_at(&vec![RuleDay {
        operator: RuleOperator::Normal,
        kind: RuleKind::Open,
        comments: vec![],
        matches_today: weekday(d) == Weekday::Mon,
        matches_yesterday: weekday(d - 1) == Weekday::Mon,
        today: vec![14 * 60..24 * 60],
        from_yesterday: vec![0..90],
    }])
}

/// "24/7"
fn always(_d: u64) -> Schedule {
    schedule_at(&vec![RuleDay {
        operator: RuleOperator::Normal,
        kind: RuleKind::Open,
        comments: vec![],
        matches_today: true,
        matches_yesterday: true,
        today: vec![0..24 * 60],
        from_yesterday: vec![],
    }])
}

fn no_hint(_d: u64) -> Option<u64> {
    None
}

fn plain(v: &[DateTimeRange]) -> Vec<(u64, u64, RuleKind)> {
    v.iter().map(|d| (d.range.start, d.range.end, d.kind)).collect()
}

#[test]
fn date_limit_is_year_ten_thousand() {
    assert_eq!(DATE_LIMIT, day(10_000, 1, 1) * 1440);
}

#[test]
fn iter_range_across_midnight() {
    let out = iter_range(at(2020, 6, 1, 0, 0), at(2020, 6, 3, 0, 0), &monday_late, &no_hint).unwrap();
    assert_eq!(
        plain(&out),
        vec![
            (at(2020, 6, 1, 0, 0), at(2020, 6, 1, 14, 0), RuleKind::Closed),
            (at(2020, 6, 1, 14, 0), at(2020, 6, 2, 1, 30), RuleKind::Open),
            (at(2020, 6, 2, 1, 30), at(2020, 6, 3, 0, 0), RuleKind::Closed),
        ]
    );
}

#[test]
fn iter_range_clips_start_inside_an_interval() {
    let out = iter_range(at(2020, 6, 1, 15, 0), at(2020, 6, 2, 1, 0), &monday_late, &no_hint).unwrap();
    assert_eq!(plain(&out), vec![(at(2020, 6, 1, 15, 0), at(2020, 6, 2, 1, 0), RuleKind::Open)]);
    let out = iter_range(at(2020, 6, 1, 15, 0), at(2020, 6, 2, 3, 0), &monday_late, &no_hint).unwrap();
    assert_eq!(
        plain(&out),
        vec![
            (at(2020, 6, 1, 15, 0), at(2020, 6, 2, 1, 30), RuleKind::Open),
            (at(2020, 6, 2, 1, 30), at(2020, 6, 2, 3, 0), RuleKind::Closed),
        ]
    );
}

#[test]
fn iter_range_empty_window() {
    let out = iter_range(at(2020, 6, 1, 15, 0), at(2020, 6, 1, 15, 0), &monday_late, &no_hint).unwrap();
    assert!(out.is_empty());
}

#[test]
fn iter_range_rejects_instants_past_the_limit() {
    assert_eq!(
        iter_range(DATE_LIMIT, DATE_LIMIT, &always, &no_hint).err(),
        Some(Error::DateLimitExceeded(DATE_LIMIT))
    );
    assert_eq!(
        iter_range(0, DATE_LIMIT + 1, &always, &no_hint).err(),
        Some(Error::DateLimitExceeded(DATE_LIMIT + 1))
    );
    let far = |d: u64| Some(d + 1_000_000);
    let out = iter_range(at(2020, 6, 1, 0, 0), DATE_LIMIT, &always, &far).unwrap();
    assert_eq!(plain(&out), vec![(at(2020, 6, 1, 0, 0), DATE_LIMIT, RuleKind::Open)]);
}

#[test]
fn hint_does_not_change_the_output() {
    let far = |d: u64| Some(d + 100);
    let from = at(2020, 6, 1, 8, 0);
    let to = at(2020, 6, 11, 8, 0);
    let with_hint = iter_range(from, to, &always, &far).unwrap();
    let without = iter_range(from, to, &always, &no_hint).unwrap();
    assert_eq!(plain(&with_hint), vec![(from, to, RuleKind::Open)]);
    assert_eq!(plain(&with_hint), plain(&without));
}

#[test]
fn intervals_walk_to_the_limit() {
    let out = intervals(at(2020, 6, 1, 12, 0), at(2020, 6, 9, 0, 0), &monday_late, &no_hint).unwrap();
    assert_eq!(
        plain(&out),
        vec![
            (at(2020, 6, 1, 12, 0), at(2020, 6, 1, 14, 0), RuleKind::Closed),
            (at(2020, 6, 1, 14, 0), at(2020, 6, 2, 1, 30), RuleKind::Open),
            (at(2020, 6, 2, 1, 30), at(2020, 6, 8, 14, 0), RuleKind::Closed),
            (at(2020, 6, 8, 14, 0), at(2020, 6, 9, 0, 0), RuleKind::Open),
        ]
    );
}

#[test]
fn iter_from_steps_the_cursor() {
    let mut it = iter_from(at(2020, 6, 2, 1, 0), &monday_late).unwrap();
    let first = it.next(&monday_late, &no_hint).unwrap();
    assert_eq!((first.range.start, first.range.end, first.kind), (at(2020, 6, 2, 0, 0), at(2020, 6, 2, 1, 30), RuleKind::Open));
    let second = it.next(&monday_late, &no_hint).unwrap();
    assert_eq!((second.range.start, second.range.end, second.kind), (at(2020, 6, 2, 1, 30), at(2020, 6, 8, 14, 0), RuleKind::Closed));
    assert!(iter_from(DATE_LIMIT, &monday_late).is_err());
}

#[test]
fn next_change_finds_end_of_run() {
    assert_eq!(next_change(at(2020, 6, 1, 15, 0), &monday_late, &no_hint), Ok(at(2020, 6, 2, 1, 30)));
    assert_eq!(next_change(at(2020, 6, 2, 1, 30), &monday_late, &no_hint), Ok(at(2020, 6, 8, 14, 0)));
    assert_eq!(next_change(DATE_LIMIT, &monday_late, &no_hint), Err(Error::DateLimitExceeded(DATE_LIMIT)));
}

#[test]
fn next_change_of_constant_state_is_the_limit() {
    assert_eq!(next_change(at(2020, 6, 1, 0, 0), &always, &|d: u64| Some(d + 1_000_000)), Ok(DATE_LIMIT));
}

#[test]
fn state_queries() {
    assert_eq!(state(at(2020, 6, 2, 1, 0), &monday_late, &no_hint), Ok(RuleKind::Open));
    assert_eq!(state(at(2020, 6, 2, 2, 0), &monday_late, &no_hint), Ok(RuleKind::Closed));
    assert!(is_open(at(2020, 6, 1, 14, 0), &monday_late, &no_hint));
    assert!(!is_open(at(2020, 6, 1, 13, 59), &monday_late, &no_hint));
    assert!(is_closed(at(2020, 6, 3, 12, 0), &monday_late, &no_hint));
    assert!(!is_unknown(at(2020, 6, 3, 12, 0), &monday_late, &no_hint));
}

#[test]
fn unknown_past_the_limit() {
    assert!(is_unknown(DATE_LIMIT, &always, &no_hint));
    assert!(!is_open(DATE_LIMIT, &always, &no_hint));
    assert!(!is_closed(DATE_LIMIT + 5, &always, &no_hint));
    assert_eq!(state(DATE_LIMIT, &always, &no_hint), Err(Error::DateLimitExceeded(DATE_LIMIT)));
}

#[test]
fn unknown_rule_state() {
    let unknown = |_d: u64| {
        schedule_at(&vec![RuleDay {
            operator: RuleOperator::Normal,
            kind: RuleKind::Unknown,
            comments: vec![2],
            matches_today: true,
            matches_yesterday: false,
            today: vec![0..24 * 60],
            from_yesterday: vec![],
        }])
    };
    assert!(is_unknown(at(2020, 6, 1, 9, 0), &unknown, &no_hint));
    let out = iter_range(at(2020, 6, 1, 9, 0), at(2020, 6, 1, 10, 0), &unknown, &no_hint).unwrap();
    assert_eq!(out.len(), 1);
    assert_eq!(out[0].comments(), &[2]);
    assert_eq!(out.into_iter().next().unwrap().into_comments(), vec![2]);
}

/// "Mo-Fr 08:00-12:00, We 10:00-14:00 unknown; Sa 22:00-26:00 closed"
fn week(d: u64) -> Schedule {
    let wd = weekday(d);
    let prev = weekday(d - 1);
    let weekday_open = !matches!(wd, Weekday::Sat | Weekday::Sun);
    schedule_at(&vec![
        RuleDay {
            operator: RuleOperator::Normal,
            kind: RuleKind::Open,
            comments: vec![],
            matches_today: weekday_open,
            matches_yesterday: !matches!(prev, Weekday::Sat | Weekday::Sun),
            today: vec![8 * 60..12 * 60],
            from_yesterday: vec![],
        },
        RuleDay {
            operator: RuleOperator::Additional,
            kind: RuleKind::Unknown,
            comments: vec![1],
            matches_today: wd == Weekday::Wed,
            matches_yesterday: prev == Weekday::Wed,
            today: vec![10 * 60..14 * 60],
            from_yesterday: vec![],
        },
        RuleDay {
            operator: RuleOperator::Normal,
            kind: RuleKind::Closed,
            comments: vec![0],
            matches_today: wd == Weekday::Sat,
            matches_yesterday: prev == Weekday::Sat,
            today: vec![22 * 60..24 * 60],
            from_yesterday: vec![0..120],
        },
    ])
}

#[test]
fn timeline_is_ordered_and_alternates() {
    let from = at(2020, 6, 1, 9, 30);
    let to = at(2020, 6, 22, 0, 0);
    let out = intervals(from, to, &week, &no_hint).unwrap();
    assert_eq!(out[0].range.start, from);
    assert_eq!(out[out.len() - 1].range.end, to);
    for d in &out {
        assert!(from <= d.range.start && d.range.start < d.range.end && d.range.end <= to);
    }
    for w in out.windows(2) {
        assert_eq!(w[0].range.end, w[1].range.start);
        assert_ne!(w[0].kind, w[1].kind);
    }
    let wednesday: Vec<(u64, u64, RuleKind)> = plain(&out)
        .into_iter()
        .filter(|(s, _, _)| *s >= at(2020, 6, 3, 0, 0) && *s < at(2020, 6, 4, 0, 0))
        .collect();
    assert_eq!(
        wednesday,
        vec![
            (at(2020, 6, 3, 8, 0), at(2020, 6, 3, 12, 0), RuleKind::Open),
            (at(2020, 6, 3, 12, 0), at(2020, 6, 3, 14, 0), RuleKind::Unknown),
            (at(2020, 6, 3, 14, 0), at(2020, 6, 4, 8, 0), RuleKind::Closed),
        ]
    );
}

#[test]
fn next_change_hint_takes_the_earliest() {
    assert_eq!(next_change_hint(10, &vec![Some(15), Some(12), Some(30)]), Some(12));
    assert_eq!(next_change_hint(10, &vec![Some(15)]), Some(15));
}

#[test]
fn next_change_hint_is_absent_when_a_rule_has_none() {
    assert_eq!(next_change_hint(10, &vec![Some(15), None]), None);
    assert_eq!(next_change_hint(10, &Vec::new()), None);
}

#[test]
fn next_change_hint_ignores_days_not_later() {
    assert_eq!(next_change_hint(10, &vec![Some(10), Some(20)]), None);
    assert_eq!(next_change_hint(10, &vec![Some(4)]), None);
}
