use std::ops::Range;

use opening_hours::combine::{rule_sequence_schedule_at, schedule_at, RuleDay, RuleOperator};
use opening_hours::schedule::{comments_union, RuleKind, Schedule};

fn hm(h: u64, m: u64) -> u64 {
    h * 60 + m
}

fn rule(
    operator: RuleOperator,
    kind: RuleKind,
    comments: Vec<u32>,
    matches_today: bool,
    matches_yesterday: bool,
    today: Vec<Range<u64>>,
    from_yesterday: Vec<Range<u64>>,
) -> RuleDay {
    RuleDay { operator, kind, comments, matches_today, matches_yesterday, today, from_yesterday }
}

/// The selected runs of a schedule: filled ranges other than the closed gaps
/// without comment.
fn runs(s: &Schedule) -> Vec<(u64, u64, RuleKind)> {
    s.filled()
        .into_iter()
        .filter(|tr| !(tr.kind == RuleKind::Closed && tr.comments.is_empty()))
        .map(|tr| (tr.range.start, tr.range.end, tr.kind))
        .collect()
}

#[test]
fn basic_timespan() {
    // "14:00-19:00" on 2020-06-01
    let s = schedule_at(&vec![rule(
        RuleOperator::Normal,
        RuleKind::Open,
        vec![],
        true,
        true,
        vec![hm(14, 0)..hm(19, 0)],
        vec![],
    )]);
    assert_eq!(runs(&s), vec![(hm(14, 0), hm(19, 0), RuleKind::Open)]);

    // "10:00-12:00,14:00-16:00" on 2020-06-01
    let s = schedule_at(&vec![rule(
        RuleOperator::Normal,
        RuleKind::Open,
        vec![],
        true,
        true,
        vec![hm(10, 0)..hm(12, 0), hm(14, 0)..hm(16, 0)],
        vec![],
    )]);
    assert_eq!(
        runs(&s),
        vec![(hm(10, 0), hm(12, 0), RuleKind::Open), (hm(14, 0), hm(16, 0), RuleKind::Open)]
    );

    // "10:00-12:00,11:00-16:00 unknown" on 2020-06-01
    let s = schedule_at(&vec![rule(
        RuleOperator::Normal,
        RuleKind::Unknown,
        vec![],
        true,
        true,
        vec![hm(10, 0)..hm(12, 0), hm(11, 0)..hm(16, 0)],
        vec![],
    )]);
    assert_eq!(runs(&s), vec![(hm(10, 0), hm(16, 0), RuleKind::Unknown)]);
}

#[test]
fn overlap() {
    // "10:00-12:00,14:00-25:30" on 2020-06-01
    let s = schedule_at(&vec![rule(
        RuleOperator::Normal,
        RuleKind::Open,
        vec![],
        true,
        true,
        vec![hm(10, 0)..hm(12, 0), hm(14, 0)..hm(24, 0)],
        vec![hm(0, 0)..hm(1, 30)],
    )]);
    assert_eq!(
        runs(&s),
        vec![
            (hm(0, 0), hm(1, 30), RuleKind::Open),
            (hm(10, 0), hm(12, 0), RuleKind::Open),
            (hm(14, 0), hm(24, 0), RuleKind::Open),
        ]
    );

    // "Mo 14:00-25:30" on 2020-06-02, a Tuesday
    let s = schedule_at(&vec![rule(
        RuleOperator::Normal,
        RuleKind::Open,
        vec![],
        false,
        true,
        vec![hm(14, 0)..hm(24, 0)],
        vec![hm(0, 0)..hm(1, 30)],
    )]);
    assert_eq!(runs(&s), vec![(hm(0, 0), hm(1, 30), RuleKind::Open)]);
}

#[test]
fn filled_schedule_partitions_the_day() {
    let s = schedule_at(&vec![rule(
        RuleOperator::Normal,
        RuleKind::Open,
        vec![4],
        true,
        false,
        vec![hm(8, 0)..hm(12, 0)],
        vec![],
    )]);
    let filled = s.filled();
    let got: Vec<(u64, u64, RuleKind, Vec<u32>)> =
        filled.iter().map(|tr| (tr.range.start, tr.range.end, tr.kind, tr.comments.clone())).collect();
    assert_eq!(
        got,
        vec![
            (0, hm(8, 0), RuleKind::Closed, vec![]),
            (hm(8, 0), hm(12, 0), RuleKind::Open, vec![4]),
            (hm(12, 0), hm(24, 0), RuleKind::Closed, vec![]),
        ]
    );
}

#[test]
fn empty_sequence_gives_one_closed_run() {
    let s = schedule_at(&Vec::new());
    let filled = s.filled();
    assert_eq!(filled.len(), 1);
    assert_eq!((filled[0].range.start, filled[0].range.end, filled[0].kind), (0, hm(24, 0), RuleKind::Closed));
}

#[test]
fn normal_rule_that_matches_replaces_earlier_ones() {
    let s = schedule_at(&vec![
        rule(RuleOperator::Normal, RuleKind::Open, vec![], true, false, vec![hm(8, 0)..hm(18, 0)], vec![]),
        rule(RuleOperator::Normal, RuleKind::Open, vec![], true, false, vec![hm(10, 0)..hm(12, 0)], vec![]),
    ]);
    assert_eq!(runs(&s), vec![(hm(10, 0), hm(12, 0), RuleKind::Open)]);
}

#[test]
fn normal_rule_that_does_not_match_keeps_earlier_ones() {
    let s = schedule_at(&vec![
        rule(RuleOperator::Normal, RuleKind::Open, vec![], true, false, vec![hm(8, 0)..hm(18, 0)], vec![]),
        rule(RuleOperator::Normal, RuleKind::Closed, vec![], false, false, vec![hm(0, 0)..hm(24, 0)], vec![]),
    ]);
    assert_eq!(runs(&s), vec![(hm(8, 0), hm(18, 0), RuleKind::Open)]);
}

#[test]
fn additional_open_overrides_unknown() {
    let s = schedule_at(&vec![
        rule(RuleOperator::Normal, RuleKind::Unknown, vec![], true, false, vec![hm(8, 0)..hm(12, 0)], vec![]),
        rule(RuleOperator::Additional, RuleKind::Open, vec![], true, false, vec![hm(10, 0)..hm(14, 0)], vec![]),
    ]);
    assert_eq!(
        runs(&s),
        vec![(hm(8, 0), hm(10, 0), RuleKind::Unknown), (hm(10, 0), hm(14, 0), RuleKind::Open)]
    );
}

#[test]
fn additional_closed_does_not_override_open() {
    let s = schedule_at(&vec![
        rule(RuleOperator::Normal, RuleKind::Open, vec![], true, false, vec![hm(8, 0)..hm(12, 0)], vec![]),
        rule(RuleOperator::Additional, RuleKind::Closed, vec![7], true, false, vec![hm(10, 0)..hm(14, 0)], vec![]),
    ]);
    let filled = s.filled();
    let got: Vec<(u64, u64, RuleKind, Vec<u32>)> =
        filled.iter().map(|tr| (tr.range.start, tr.range.end, tr.kind, tr.comments.clone())).collect();
    assert_eq!(
        got,
        vec![
            (0, hm(8, 0), RuleKind::Closed, vec![]),
            (hm(8, 0), hm(10, 0), RuleKind::Open, vec![]),
            (hm(10, 0), hm(12, 0), RuleKind::Open, vec![7]),
            (hm(12, 0), hm(14, 0), RuleKind::Closed, vec![7]),
            (hm(14, 0), hm(24, 0), RuleKind::Closed, vec![]),
        ]
    );
}

#[test]
fn fallback_after_a_match_is_inert() {
    let s = schedule_at(&vec![
        rule(RuleOperator::Normal, RuleKind::Open, vec![], true, false, vec![hm(8, 0)..hm(12, 0)], vec![]),
        rule(RuleOperator::Fallback, RuleKind::Unknown, vec![], true, false, vec![hm(0, 0)..hm(24, 0)], vec![]),
    ]);
    assert_eq!(runs(&s), vec![(hm(8, 0), hm(12, 0), RuleKind::Open)]);
}

#[test]
fn fallback_without_earlier_match_applies() {
    let s = schedule_at(&vec![
        rule(RuleOperator::Normal, RuleKind::Open, vec![], false, false, vec![hm(8, 0)..hm(12, 0)], vec![]),
        rule(RuleOperator::Fallback, RuleKind::Unknown, vec![], true, false, vec![hm(9, 0)..hm(10, 0)], vec![]),
    ]);
    assert_eq!(runs(&s), vec![(hm(9, 0), hm(10, 0), RuleKind::Unknown)]);
}

#[test]
fn rule_selecting_neither_day_gives_nothing() {
    let r = rule(RuleOperator::Normal, RuleKind::Open, vec![], false, false, vec![hm(8, 0)..hm(12, 0)], vec![]);
    assert!(rule_sequence_schedule_at(&r).is_none());
}

#[test]
fn from_ranges_addition_merges_comments() {
    let a = Schedule::from_ranges(&vec![hm(1, 0)..hm(2, 0)], RuleKind::Open, &vec![1, 3]);
    let b = Schedule::from_ranges(&vec![hm(1, 30)..hm(3, 0)], RuleKind::Open, &vec![2, 3]);
    let s = a.addition(&b);
    let got: Vec<(u64, u64, Vec<u32>)> =
        s.filled().iter().map(|tr| (tr.range.start, tr.range.end, tr.comments.clone())).collect();
    assert_eq!(
        got,
        vec![
            (0, hm(1, 0), vec![]),
            (hm(1, 0), hm(1, 30), vec![1, 3]),
            (hm(1, 30), hm(2, 0), vec![1, 2, 3]),
            (hm(2, 0), hm(3, 0), vec![2, 3]),
            (hm(3, 0), hm(24, 0), vec![]),
        ]
    );
}

#[test]
fn comments_union_is_sorted_without_duplicates() {
    assert_eq!(comments_union(&vec![1, 4, 9], &vec![2, 4, 10]), vec![1, 2, 4, 9, 10]);
    assert_eq!(comments_union(&vec![], &vec![3]), vec![3]);
}
