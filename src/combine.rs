//! Combination of the rules of a sequence into the schedule of one day.
use std::ops::Range;
use vstd::prelude::*;
use crate::schedule::{
    add_slot, lemma_add_slot_sorted, selects, sorted_ids, states_sorted, RuleKind, Schedule, SlotView, MINUTES_PER_DAY,
};

verus! {

/// How a rule combines with the result of the rules before it.
#[derive(Clone, Copy, Debug, PartialEq, Eq, Structural, Hash)]
pub enum RuleOperator {
    Normal,
    Additional,
    Fallback,
}

/// What the day selector and the time selector of one rule give for one date.
pub struct RuleDay {
    pub operator: RuleOperator,
    pub kind: RuleKind,
    /// Sorted ids of the rule's comments.
    pub comments: Vec<u32>,
    /// The day selector accepts the date.
    pub matches_today: bool,
    /// The day selector accepts the day before the date.
    pub matches_yesterday: bool,
    /// Time ranges of the rule anchored on the date, in minutes of that day.
    pub today: Vec<Range<u64>>,
    /// Part of the previous day's time ranges that runs past midnight, in
    /// minutes of the date.
    pub from_yesterday: Vec<Range<u64>>,
}

/// The kind of a minute's state, if it has one.
pub open spec fn slot_kind(s: SlotView) -> Option<RuleKind> {
    match s {
        Some((k, _)) => Some(k),
        None => None,
    }
}

pub open spec fn empty_sched() -> Seq<SlotView> {
    Seq::new(MINUTES_PER_DAY as nat, |t: int| None)
}

pub open spec fn sched_of_ranges(ranges: Seq<Range<u64>>, kind: RuleKind, comments: Seq<u32>) -> Seq<SlotView> {
    Seq::new(
        MINUTES_PER_DAY as nat,
        |t: int|
            if selects(ranges, t) {
                Some((kind, comments))
            } else {
                None
            },
    )
}

pub open spec fn add_sched(a: Seq<SlotView>, b: Seq<SlotView>) -> Seq<SlotView> {
    Seq::new(MINUTES_PER_DAY as nat, |t: int| add_slot(a[t], b[t]))
}

/// The schedule that one rule contributes to a date: its own ranges when it
/// matches the date, the spill-over of the previous day when it matched that
/// day, both overlaid when both hold.
pub open spec fn rule_eval(r: RuleDay) -> Option<Seq<SlotView>> {
    let today = sched_of_ranges(r.today@, r.kind, r.comments@);
    let yesterday = sched_of_ranges(r.from_yesterday@, r.kind, r.comments@);
    if r.matches_today && r.matches_yesterday {
        Some(add_sched(today, yesterday))
    } else if r.matches_today {
        Some(today)
    } else if r.matches_yesterday {
        Some(yesterday)
    } else {
        None
    }
}

pub open spec fn or_else(a: Option<Seq<SlotView>>, b: Option<Seq<SlotView>>) -> Option<Seq<SlotView>> {
    if a is Some {
        a
    } else {
        b
    }
}

/// One step of the left-to-right combination: the accumulated match and
/// schedule of the rules before, then the rule itself.
pub open spec fn combine_step(
    prev_match: bool,
    prev_eval: Option<Seq<SlotView>>,
    op: RuleOperator,
    curr_match: bool,
    curr_eval: Option<Seq<SlotView>>,
) -> (bool, Option<Seq<SlotView>>) {
    match op {
        RuleOperator::Normal => (
            curr_match || prev_match,
            if curr_match {
                curr_eval
            } else {
                or_else(prev_eval, curr_eval)
            },
        ),
        RuleOperator::Additional => (
            prev_match || curr_match,
            match (prev_eval, curr_eval) {
                (Some(p), Some(c)) => Some(add_sched(p, c)),
                (p, c) => or_else(p, c),
            },
        ),
        RuleOperator::Fallback => if prev_match {
            (prev_match, prev_eval)
        } else {
            (curr_match, curr_eval)
        },
    }
}

/// Accumulated match and schedule after the rules of `rules`, in order.
pub open spec fn combine(rules: Seq<RuleDay>) -> (bool, Option<Seq<SlotView>>)
    decreases rules.len(),
{
    if rules.len() == 0 {
        (false, None)
    } else {
        let prev = combine(rules.drop_last());
        let r = rules.last();
        combine_step(prev.0, prev.1, r.operator, r.matches_today, rule_eval(r))
    }
}

/// The schedule of a date for a whole rule sequence.
pub open spec fn spec_schedule_at(rules: Seq<RuleDay>) -> Seq<SlotView> {
    match combine(rules).1 {
        Some(s) => s,
        None => empty_sched(),
    }
}

/// Every rule's comment ids are strictly increasing.
pub open spec fn rules_sorted(rules: Seq<RuleDay>) -> bool {
    forall|i: int| 0 <= i < rules.len() ==> sorted_ids(#[trigger] rules[i].comments@)
}

proof fn lemma_add_sched_sorted(a: Seq<SlotView>, b: Seq<SlotView>)
    requires
        a.len() == MINUTES_PER_DAY,
        b.len() == MINUTES_PER_DAY,
        states_sorted(a),
        states_sorted(b),
    ensures
        states_sorted(add_sched(a, b)),
{
    assert forall|t: int| 0 <= t < add_sched(a, b).len() implies crate::schedule::slot_sorted(
        #[trigger] add_sched(a, b)[t],
    ) by {
        lemma_add_slot_sorted(a[t], b[t]);
    }
}

proof fn lemma_rule_eval_sorted(r: RuleDay)
    requires
        sorted_ids(r.comments@),
    ensures
        rule_eval(r) matches Some(e) ==> e.len() == MINUTES_PER_DAY && states_sorted(e),
{
    let today = sched_of_ranges(r.today@, r.kind, r.comments@);
    let yesterday = sched_of_ranges(r.from_yesterday@, r.kind, r.comments@);
    assert(states_sorted(today));
    assert(states_sorted(yesterday));
    if r.matches_today && r.matches_yesterday {
        lemma_add_sched_sorted(today, yesterday);
    }
}

/// With sorted comment ids in every rule, the combined schedule has sorted
/// comment ids in every minute.
pub proof fn lemma_combine_sorted(rules: Seq<RuleDay>)
    requires
        rules_sorted(rules),
    ensures
        combine(rules).1 matches Some(e) ==> e.len() == MINUTES_PER_DAY && states_sorted(e),
    decreases rules.len(),
{
    if rules.len() > 0 {
        let prev = rules.drop_last();
        assert(rules_sorted(prev)) by {
            assert forall|i: int| 0 <= i < prev.len() implies sorted_ids(#[trigger] prev[i].comments@) by {
                assert(prev[i] == rules[i]);
            }
        }
        lemma_combine_sorted(prev);
        let r = rules.last();
        assert(sorted_ids(rules[rules.len() - 1].comments@));
        lemma_rule_eval_sorted(r);
        if let (Some(p), Some(c)) = (combine(prev).1, rule_eval(r)) {
            lemma_add_sched_sorted(p, c);
        }
    }
}

/// The schedule that one rule gives to a date, from its own ranges and from
/// the previous day's spill-over; `None` when the rule selects neither day.
pub fn rule_sequence_schedule_at(rule: &RuleDay) -> (r: Option<Schedule>)
    ensures
        match (r, rule_eval(*rule)) {
            (Some(s), Some(e)) => s@ == e,
            (None, None) => true,
            _ => false,
        },
{
    let from_today = if rule.matches_today {
        let s = Schedule::from_ranges(&rule.today, rule.kind, &rule.comments);
        assert(s@ =~= sched_of_ranges(rule.today@, rule.kind, rule.comments@));
        Some(s)
    } else {
        None
    };
    let from_yesterday = if rule.matches_yesterday {
        let s = Schedule::from_ranges(&rule.from_yesterday, rule.kind, &rule.comments);
        assert(s@ =~= sched_of_ranges(rule.from_yesterday@, rule.kind, rule.comments@));
        Some(s)
    } else {
        None
    };
    match (from_today, from_yesterday) {
        (Some(s1), Some(s2)) => {
            let s = s1.addition(&s2);
            assert(s@ =~= add_sched(s1@, s2@));
            Some(s)
        },
        (Some(s1), None) => Some(s1),
        (None, s2) => s2,
    }
}

fn add_opt(prev: Option<Schedule>, curr: Option<Schedule>) -> (r: Option<Schedule>)
    requires
        prev matches Some(p) ==> p@.len() == MINUTES_PER_DAY,
        curr matches Some(c) ==> c@.len() == MINUTES_PER_DAY,
    ensures
        match (r, prev, curr) {
            (Some(x), Some(p), Some(c)) => x@ == add_sched(p@, c@),
            (Some(x), Some(p), None) => x@ == p@,
            (Some(x), None, Some(c)) => x@ == c@,
            (None, None, None) => true,
            _ => false,
        },
{
    match (prev, curr) {
        (Some(p), Some(c)) => {
            let s = p.addition(&c);
            assert(s@ =~= add_sched(p@, c@));
            Some(s)
        },
        (Some(p), None) => Some(p),
        (None, c) => c,
    }
}

pub open spec fn opt_view(s: Option<Schedule>) -> Option<Seq<SlotView>> {
    match s {
        Some(x) => Some(x@),
        None => None,
    }
}

/// Combines the rules of a sequence, in order, into the schedule of one date.
pub fn schedule_at(rules: &Vec<RuleDay>) -> (r: Schedule)
    ensures
        r@ == spec_schedule_at(rules@),
        r@.len() == MINUTES_PER_DAY,
        rules_sorted(rules@) ==> states_sorted(r@),
{
    let mut prev_match = false;
    let mut prev_eval: Option<Schedule> = None;
    let mut i: usize = 0;
    while i < rules.len()
        invariant
            i <= rules.len(),
            (prev_match, opt_view(prev_eval)) == combine(rules@.subrange(0, i as int)),
            prev_eval matches Some(p) ==> p@.len() == MINUTES_PER_DAY,
        decreases rules.len() - i,
    {
        let rule = &rules[i];
        let curr_match = rule.matches_today;
        let curr_eval = rule_sequence_schedule_at(rule);
        proof {
            assert(rules@.subrange(0, i + 1).drop_last() =~= rules@.subrange(0, i as int));
            assert(rules@.subrange(0, i + 1).last() == rules@[i as int]);
        }
        let (new_match, new_eval) = match rule.operator {
            RuleOperator::Normal => (
                curr_match || prev_match,
                if curr_match {
                    curr_eval
                } else {
                    match prev_eval {
                        Some(p) => Some(p),
                        None => curr_eval,
                    }
                },
            ),
            RuleOperator::Additional => (prev_match || curr_match, add_opt(prev_eval, curr_eval)),
            RuleOperator::Fallback => {
                if prev_match {
                    (prev_match, prev_eval)
                } else {
                    (curr_match, curr_eval)
                }
            },
        };
        prev_match = new_match;
        prev_eval = new_eval;
        i = i + 1;
    }
    proof {
        assert(rules@.subrange(0, rules.len() as int) =~= rules@);
        if rules_sorted(rules@) {
            lemma_combine_sorted(rules@);
        }
    }
    match prev_eval {
        Some(s) => s,
        None => {
            let s = Schedule::empty();
            assert(s@ =~= empty_sched());
            s
        },
    }
}

/// The accumulated match of a sequence holds exactly when one of its rules
/// matches the date.
pub proof fn lemma_combined_match(rules: Seq<RuleDay>)
    ensures
        combine(rules).0 == (exists|j: int| 0 <= j < rules.len() && (#[trigger] rules[j]).matches_today),
    decreases rules.len(),
{
    if rules.len() > 0 {
        let prev = rules.drop_last();
        lemma_combined_match(prev);
        if exists|j: int| 0 <= j < prev.len() && (#[trigger] prev[j]).matches_today {
            let j = choose|j: int| 0 <= j < prev.len() && (#[trigger] prev[j]).matches_today;
            assert(rules[j] == prev[j]);
        }
        if exists|j: int| 0 <= j < rules.len() && (#[trigger] rules[j]).matches_today {
            let j = choose|j: int| 0 <= j < rules.len() && (#[trigger] rules[j]).matches_today;
            if j < prev.len() {
                assert(prev[j] == rules[j]);
            }
        }
    }
}

/// A fallback rule after a sequence in which some rule matches the date
/// changes neither the accumulated match nor the accumulated schedule,
/// whatever it matches itself.
pub proof fn lemma_fallback_inert(rules: Seq<RuleDay>, fallback: RuleDay)
    requires
        fallback.operator == RuleOperator::Fallback,
        exists|j: int| 0 <= j < rules.len() && (#[trigger] rules[j]).matches_today,
    ensures
        combine(rules.push(fallback)) == combine(rules),
{
    lemma_combined_match(rules);
    assert(rules.push(fallback).drop_last() =~= rules);
}

/// The match of an additional combination is the disjunction of both sides,
/// in either order.
pub proof fn lemma_additional_match(
    prev_match: bool,
    prev_eval: Option<Seq<SlotView>>,
    curr_match: bool,
    curr_eval: Option<Seq<SlotView>>,
)
    ensures
        combine_step(prev_match, prev_eval, RuleOperator::Additional, curr_match, curr_eval).0 == (prev_match
            || curr_match),
        combine_step(prev_match, prev_eval, RuleOperator::Additional, curr_match, curr_eval).0
            == combine_step(curr_match, curr_eval, RuleOperator::Additional, prev_match, prev_eval).0,
{
}

/// Where both sides of an additional combination select a minute and one of
/// them is open there, the result is open there.
pub proof fn lemma_additional_open_wins(
    prev_match: bool,
    prev: Seq<SlotView>,
    curr_match: bool,
    curr: Seq<SlotView>,
    t: int,
)
    requires
        0 <= t < MINUTES_PER_DAY,
        prev[t] is Some,
        curr[t] is Some,
        slot_kind(prev[t]) == Some(RuleKind::Open) || slot_kind(curr[t]) == Some(RuleKind::Open),
    ensures
        combine_step(prev_match, Some(prev), RuleOperator::Additional, curr_match, Some(curr)).1 matches Some(s)
            && slot_kind(s[t]) == Some(RuleKind::Open),
{
}

} // verus!
