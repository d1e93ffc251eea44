//! The timeline: a cursor that walks forward through the days and yields one
//! dated interval for each maximal run of one state, and the queries built on
//! it. An instant is a count of minutes: its day number times 1440 plus its
//! minute of the day, where the day number of a date is its count of days
//! in the common era (0001-01-01 is day 1).
use std::ops::Range;
use vstd::prelude::*;
use vstd::arithmetic::div_mod::{lemma_fundamental_div_mod, lemma_fundamental_div_mod_converse};
use crate::schedule::{
    fill_slot, fills_until, is_filling_of, sorted_ids, state_of, states_sorted, RuleKind,
    Schedule, SlotView, TimeRange, MINUTES_PER_DAY,
};

verus! {

/// Day number of 10000-01-01, the first day that is not handled.
pub const DATE_LIMIT_DAYS: u64 = 3652060;

/// 10000-01-01 00:00: no query may reach this instant.
pub const DATE_LIMIT: u64 = DATE_LIMIT_DAYS * MINUTES_PER_DAY;

/// Conditions that a query reports to its caller.
#[derive(Debug, PartialEq, Eq)]
pub enum Error {
    /// The instant given is at or beyond the date limit.
    DateLimitExceeded(u64),
    /// No holiday calendar is known for this region code.
    RegionNotFound(String),
}

/// A range of date-times with its state and the sorted ids of its comments.
pub struct DateTimeRange {
    pub range: Range<u64>,
    pub kind: RuleKind,
    pub comments: Vec<u32>,
}

impl DateTimeRange {
    pub fn new_with_sorted_comments(range: Range<u64>, kind: RuleKind, comments: Vec<u32>) -> (r: Self)
        ensures
            r.range == range,
            r.kind == kind,
            r.comments@ == comments@,
    {
        DateTimeRange { range, kind, comments }
    }

    pub fn comments(&self) -> (r: &[u32])
        ensures
            r@ == self.comments@,
    {
        self.comments.as_slice()
    }

    pub fn into_comments(self) -> (r: Vec<u32>)
        ensures
            r@ == self.comments@,
    {
        self.comments
    }
}

/// `schedule_of` can be called on every day and gives a schedule of a whole
/// day, the same one each time it is asked about that day, with sorted
/// comment ids in every minute.
pub open spec fn valid_day_source<F: Fn(u64) -> Schedule>(schedule_of: &F) -> bool {
    &&& forall|d: u64| #[trigger] schedule_of.requires((d,))
    &&& forall|d: u64, s: Schedule| #[trigger] schedule_of.ensures((d,), s) ==> s@.len() == MINUTES_PER_DAY
        && states_sorted(s@)
    &&& forall|d: u64, s1: Schedule, s2: Schedule|
        #[trigger] schedule_of.ensures((d,), s1) && #[trigger] schedule_of.ensures((d,), s2) ==> s1@ == s2@
}

/// `hint` can be called on every day and names, if anything, a later day.
pub open spec fn valid_hint<H: Fn(u64) -> Option<u64>>(hint: &H) -> bool {
    &&& forall|d: u64| #[trigger] hint.requires((d,))
    &&& forall|d: u64, r: Option<u64>| #[trigger] hint.ensures((d,), r) ==> (r matches Some(n) ==> n > d)
}

/// Consecutive non-empty ranges of one day, from 00:00 on.
pub open spec fn day_ranges(s: Seq<TimeRange>) -> bool {
    &&& s.len() > 0 ==> s[0].range.start == 0
    &&& forall|i: int| 0 <= i < s.len() ==> (#[trigger] s[i]).range.start < s[i].range.end
    &&& forall|i: int| 0 <= i < s.len() ==> (#[trigger] s[i]).range.end <= MINUTES_PER_DAY
    &&& forall|i: int, j: int|
        #![trigger s[i], s[j]]
        0 <= i && j == i + 1 && j < s.len() ==> s[i].range.end == s[j].range.start
}

proof fn lemma_filling_day_ranges(out: Seq<TimeRange>, sched: Seq<SlotView>)
    requires
        is_filling_of(out, sched),
    ensures
        day_ranges(out),
        out.len() > 0,
        out[out.len() - 1].range.end == MINUTES_PER_DAY,
{
    reveal(fills_until);
    assert forall|i: int| 0 <= i < out.len() implies (#[trigger] out[i]).range.end <= MINUTES_PER_DAY by {
        lemma_ends_below(out, i);
    }
}

proof fn lemma_ends_below(out: Seq<TimeRange>, i: int)
    requires
        0 <= i < out.len(),
        out[out.len() - 1].range.end == MINUTES_PER_DAY,
        forall|k: int| 0 <= k < out.len() ==> (#[trigger] out[k]).range.start < out[k].range.end,
        forall|k: int, j: int|
            #![trigger out[k], out[j]]
            0 <= k && j == k + 1 && j < out.len() ==> out[k].range.end == out[j].range.start,
    ensures
        out[i].range.end <= MINUTES_PER_DAY,
    decreases out.len() - i,
{
    if i < out.len() - 1 {
        lemma_ends_below(out, i + 1);
        assert(out[i].range.end == out[i + 1].range.start);
    }
}

/// A cursor over the timeline: the current date, that date's filled schedule
/// and a position in it, and the instant where the walk ends.
pub struct TimeDomainIterator {
    pub curr_date: u64,
    pub curr_schedule: Vec<TimeRange>,
    pub pos: usize,
    pub end_datetime: u64,
    /// The minute states of the current date that the filled schedule was
    /// made from.
    pub day_states: Ghost<Seq<SlotView>>,
}

impl TimeDomainIterator {
    pub open spec fn wf(&self) -> bool {
        &&& self.end_datetime <= DATE_LIMIT
        &&& self.pos <= self.curr_schedule@.len()
        &&& day_ranges(self.curr_schedule@)
        &&& self.pos < self.curr_schedule@.len() ==> self.curr_date <= self.end_datetime / MINUTES_PER_DAY
    }

    /// Days from the current date to the date of the end instant.
    pub open spec fn days_left(&self) -> nat {
        if self.curr_date <= self.end_datetime / MINUTES_PER_DAY {
            (self.end_datetime / MINUTES_PER_DAY - self.curr_date) as nat
        } else {
            0
        }
    }

    /// While the cursor stands on a range, the current schedule is the filled
    /// form of what `schedule_of` gave for the current date.
    pub open spec fn from_source<F: Fn(u64) -> Schedule>(&self, schedule_of: &F) -> bool {
        self.has_cursor() ==> {
            &&& is_filling_of(self.curr_schedule@, self.day_states@)
            &&& exists|s: Schedule| #[trigger] schedule_of.ensures((self.curr_date,), s) && s@ == self.day_states@
        }
    }

    /// The cursor stands on a range of the current date.
    pub open spec fn has_cursor(&self) -> bool {
        self.pos < self.curr_schedule@.len()
    }

    pub open spec fn cursor(&self) -> TimeRange {
        self.curr_schedule@[self.pos as int]
    }

    /// The instant where the cursor stands: the start of its range, or the
    /// midnight that begins the current date once the day is used up.
    pub open spec fn position(&self) -> int {
        self.curr_date * MINUTES_PER_DAY + if self.has_cursor() {
            self.cursor().range.start as int
        } else {
            0
        }
    }

    /// A cursor placed on the range of `start_datetime`'s date that holds
    /// it, in the schedule that `schedule_of` gives for that date; nothing is
    /// left to walk when `start_datetime` is not before `end_datetime`.
    pub fn new<F: Fn(u64) -> Schedule>(start_datetime: u64, end_datetime: u64, schedule_of: &F) -> (r: Self)
        requires
            end_datetime <= DATE_LIMIT,
            valid_day_source(schedule_of),
        ensures
            r.wf(),
            r.end_datetime == end_datetime,
            r.curr_date == start_datetime / MINUTES_PER_DAY,
            start_datetime < end_datetime <==> r.has_cursor(),
            r.has_cursor() ==> r.position() <= start_datetime < r.curr_date * MINUTES_PER_DAY
                + r.cursor().range.end,
            r.has_cursor() ==> exists|s: Schedule|
                #[trigger] schedule_of.ensures((r.curr_date,), s) && fill_slot(
                    s@[(start_datetime % MINUTES_PER_DAY) as int],
                ) == (r.cursor().kind, r.cursor().comments@),
            r.from_source(schedule_of),
    {
        let start_date = start_datetime / MINUTES_PER_DAY;
        let start_time = start_datetime % MINUTES_PER_DAY;
        if start_datetime < end_datetime {
            let sched = schedule_of(start_date);
            let curr_schedule = sched.filled();
            proof {
                lemma_filling_day_ranges(curr_schedule@, sched@);
            }
            let mut pos: usize = 0;
            while pos < curr_schedule.len() && !(curr_schedule[pos].range.start <= start_time
                && start_time < curr_schedule[pos].range.end)
                invariant
                    pos <= curr_schedule@.len(),
                    day_ranges(curr_schedule@),
                    curr_schedule@.len() > 0,
                    curr_schedule@[curr_schedule@.len() - 1].range.end == MINUTES_PER_DAY,
                    start_time < MINUTES_PER_DAY,
                    pos < curr_schedule@.len() ==> curr_schedule@[pos as int].range.start <= start_time,
                    pos == curr_schedule@.len() ==> curr_schedule@[pos - 1].range.end <= start_time,
                decreases curr_schedule@.len() - pos,
            {
                pos = pos + 1;
            }
            proof {
                reveal(fills_until);
                let tr = curr_schedule@[pos as int];
                assert(tr.range.start <= start_time < tr.range.end);
                assert(fill_slot(sched@[start_time as int]) == (tr.kind, tr.comments@));
            }
            TimeDomainIterator { curr_date: start_date, curr_schedule, pos, end_datetime, day_states: Ghost(sched@) }
        } else {
            TimeDomainIterator {
                curr_date: start_date,
                curr_schedule: Vec::new(),
                pos: 0,
                end_datetime,
                day_states: Ghost(Seq::empty()),
            }
        }
    }

    /// Moves the cursor past every range of kind `kind`, stepping to later
    /// dates (to the hinted one, or else the next) while a day is used up.
    /// The schedule of a new date is installed up to and including the date
    /// of the end instant, so that the walk reaches the end instant itself;
    /// without that, the last interval would stop at the midnight before it
    /// or not, depending on whether a hint skipped past that date.
    fn consume_until_next_kind<F: Fn(u64) -> Schedule, H: Fn(u64) -> Option<u64>>(
        &mut self,
        kind: RuleKind,
        schedule_of: &F,
        hint: &H,
    )
        requires
            old(self).wf(),
            old(self).has_cursor(),
            old(self).cursor().kind == kind,
            old(self).from_source(schedule_of),
            valid_day_source(schedule_of),
            valid_hint(hint),
        ensures
            final(self).wf(),
            final(self).from_source(schedule_of),
            final(self).end_datetime == old(self).end_datetime,
            final(self).position() > old(self).position(),
            final(self).position() >= old(self).curr_date * MINUTES_PER_DAY + old(self).cursor().range.end,
            final(self).has_cursor() ==> final(self).cursor().kind != kind,
            !final(self).has_cursor() ==> final(self).curr_date > final(self).end_datetime / MINUTES_PER_DAY,
            final(self).curr_date >= old(self).curr_date,
            final(self).curr_date == old(self).curr_date ==> final(self).has_cursor() && final(self).day_states@
                == old(self).day_states@ && forall|m: int|
                old(self).cursor().range.start <= m < final(self).cursor().range.start ==> kind_at(
                    old(self).day_states@,
                    m,
                ) == kind,
            final(self).curr_date != old(self).curr_date ==> forall|m: int|
                old(self).cursor().range.start <= m < MINUTES_PER_DAY ==> kind_at(old(self).day_states@, m) == kind,
    {
        let ghost p0 = self.position();
        let ghost d0 = self.curr_date;
        let ghost ds0 = self.day_states@;
        let ghost c0 = self.cursor().range.start;
        let ghost e0 = self.curr_date * MINUTES_PER_DAY + self.cursor().range.end;
        while self.pos < self.curr_schedule.len() && self.curr_schedule[self.pos].kind == kind
            invariant
                self.wf(),
                self.end_datetime == old(self).end_datetime,
                self.position() >= p0,
                self.position() == p0 ==> self.has_cursor() && self.cursor().kind == kind
                    && self.curr_date * MINUTES_PER_DAY + self.cursor().range.end == e0,
                self.position() != p0 ==> self.position() >= e0,
                self.from_source(schedule_of),
                !self.has_cursor() ==> self.curr_date > self.end_datetime / MINUTES_PER_DAY,
                self.curr_date >= d0,
                self.curr_date == d0 ==> self.has_cursor() && self.day_states@ == ds0 && forall|m: int|
                    c0 <= m < self.cursor().range.start ==> kind_at(ds0, m) == kind,
                self.curr_date != d0 ==> forall|m: int| c0 <= m < MINUTES_PER_DAY ==> kind_at(ds0, m) == kind,
                valid_day_source(schedule_of),
                valid_hint(hint),
            decreases self.days_left(), self.curr_schedule@.len() - self.pos,
        {
            let ghost before = self.position();
            let ghost old_date = self.curr_date;
            let ghost old_start = self.cursor().range.start;
            let ghost cur = self.cursor();
            let ghost old_pos = self.pos as int;
            proof {
                reveal(fills_until);
                assert forall|m: int| cur.range.start <= m < cur.range.end implies kind_at(self.day_states@, m)
                    == kind by {
                    assert(fill_slot(self.day_states@[m]) == state_of(self.curr_schedule@[old_pos]));
                }
                if old_pos + 1 < self.curr_schedule@.len() {
                    assert(self.curr_schedule@[old_pos].range.end == self.curr_schedule@[old_pos + 1].range.start);
                } else {
                    assert(cur.range.end == MINUTES_PER_DAY);
                }
            }
            assert(self.curr_schedule@[self.pos as int].range.end <= MINUTES_PER_DAY);
            self.pos = self.pos + 1;
            if self.pos >= self.curr_schedule.len() {
                let hinted = hint(self.curr_date);
                assert(hint.ensures((self.curr_date,), hinted));
                let next = match hinted {
                    Some(d) => d,
                    None => self.curr_date + 1,
                };
                assert(next > old_date);
                self.curr_date = next;
                if self.curr_date <= self.end_datetime / MINUTES_PER_DAY {
                    let sched = schedule_of(self.curr_date);
                    let filled = sched.filled();
                    proof {
                        lemma_filling_day_ranges(filled@, sched@);
                    }
                    self.curr_schedule = filled;
                    self.pos = 0;
                    self.day_states = Ghost(sched@);
                }
                assert(self.position() >= (old_date + 1) * MINUTES_PER_DAY);
            } else {
                assert(self.curr_schedule@[self.pos - 1].range.end == self.cursor().range.start);
            }
            assert(self.position() > before);
        }
    }

    /// The next interval: from where the cursor stands to where the run of
    /// its kind ends, cut at the end instant; `None` when nothing is left.
    pub fn next<F: Fn(u64) -> Schedule, H: Fn(u64) -> Option<u64>>(&mut self, schedule_of: &F, hint: &H) -> (r:
        Option<DateTimeRange>)
        requires
            old(self).wf(),
            old(self).from_source(schedule_of),
            valid_day_source(schedule_of),
            valid_hint(hint),
        ensures
            final(self).wf(),
            final(self).from_source(schedule_of),
            final(self).end_datetime == old(self).end_datetime,
            r is Some <==> old(self).has_cursor(),
            r is None ==> *final(self) == *old(self),
            r matches Some(d) ==> {
                &&& d.range.start == old(self).position()
                &&& final(self).position() > old(self).position()
                &&& final(self).position() >= old(self).curr_date * MINUTES_PER_DAY + old(self).cursor().range.end
                &&& d.range.end as int == if final(self).position() < old(self).end_datetime {
                    final(self).position()
                } else {
                    old(self).end_datetime as int
                }
                &&& d.kind == old(self).cursor().kind
                &&& d.comments@ == old(self).cursor().comments@
                &&& final(self).has_cursor() ==> final(self).cursor().kind != d.kind
                &&& !final(self).has_cursor() ==> final(self).position() > final(self).end_datetime
                &&& final(self).curr_date >= old(self).curr_date
                &&& final(self).curr_date == old(self).curr_date ==> final(self).has_cursor()
                    && final(self).day_states@ == old(self).day_states@ && forall|m: int|
                    old(self).cursor().range.start <= m < final(self).cursor().range.start ==> kind_at(
                        old(self).day_states@,
                        m,
                    ) == d.kind
                &&& final(self).curr_date != old(self).curr_date ==> forall|m: int|
                    old(self).cursor().range.start <= m < MINUTES_PER_DAY ==> kind_at(old(self).day_states@, m)
                        == d.kind
                &&& exists|s: Schedule|
                    #[trigger] schedule_of.ensures((old(self).curr_date,), s) && fill_slot(
                        s@[old(self).cursor().range.start as int],
                    ) == (d.kind, d.comments@)
            },
    {
        if self.pos < self.curr_schedule.len() {
            let kind = self.curr_schedule[self.pos].kind;
            let comments = copy_comments(&self.curr_schedule[self.pos].comments);
            assert(self.curr_schedule@[self.pos as int].range.end <= MINUTES_PER_DAY);
            let start = self.curr_date * MINUTES_PER_DAY + self.curr_schedule[self.pos].range.start;
            proof {
                reveal(fills_until);
                let c = self.cursor();
                assert(c.range.start <= c.range.start < c.range.end);
                assert(fill_slot(self.day_states@[c.range.start as int]) == (c.kind, c.comments@));
            }
            self.consume_until_next_kind(kind, schedule_of, hint);
            proof {
                lemma_fundamental_div_mod(self.end_datetime as int, MINUTES_PER_DAY as int);
            }
            let end = if self.curr_date > self.end_datetime / MINUTES_PER_DAY {
                self.end_datetime
            } else {
                let end_time = if self.pos < self.curr_schedule.len() {
                    assert(self.curr_schedule@[self.pos as int].range.end <= MINUTES_PER_DAY);
                    self.curr_schedule[self.pos].range.start
                } else {
                    0
                };
                let at = self.curr_date * MINUTES_PER_DAY + end_time;
                if at < self.end_datetime {
                    at
                } else {
                    self.end_datetime
                }
            };
            Some(DateTimeRange { range: Range { start, end }, kind, comments })
        } else {
            None
        }
    }
}

/// Intervals of a query window in the order of the timeline: each non-empty
/// and inside `from..to`, the first starting at `from`, each ending where the
/// next starts, no two neighbours with the same state.
pub open spec fn timeline_ok(out: Seq<DateTimeRange>, from: int, to: int) -> bool {
    &&& out.len() > 0 ==> out[0].range.start == from
    &&& forall|i: int|
        0 <= i < out.len() ==> from <= (#[trigger] out[i]).range.start && out[i].range.start < out[i].range.end
            && out[i].range.end <= to
    &&& forall|i: int, j: int|
        #![trigger out[i], out[j]]
        0 <= i && j == i + 1 && j < out.len() ==> out[i].range.end == out[j].range.start && out[i].kind
            != out[j].kind
}

/// `k` and `c` are the kind and the comment ids that the schedule
/// `schedule_of` gives for the date of instant `t` has at that instant.
pub open spec fn state_from_source<F: Fn(u64) -> Schedule>(schedule_of: &F, t: u64, k: RuleKind, c: Seq<u32>) -> bool {
    exists|s: Schedule|
        #[trigger] schedule_of.ensures(((t / MINUTES_PER_DAY) as u64,), s) && fill_slot(
            s@[(t % MINUTES_PER_DAY) as int],
        ) == (k, c)
}


impl TimeDomainIterator {
    /// What the cursor still has to cover before the walk must end.
    pub open spec fn remaining(&self) -> int {
        if self.has_cursor() {
            DATE_LIMIT + MINUTES_PER_DAY - self.position()
        } else {
            0
        }
    }
}

/// Drains `it` while intervals start before `to`, cutting each to
/// `from..to`.
fn collect_range<F: Fn(u64) -> Schedule, H: Fn(u64) -> Option<u64>>(
    it: &mut TimeDomainIterator,
    from: u64,
    to: u64,
    schedule_of: &F,
    hint: &H,
) -> (r: Vec<DateTimeRange>)
    requires
        old(it).wf(),
        from < to,
        to <= old(it).end_datetime,
        old(it).has_cursor(),
        old(it).position() <= from,
        from < old(it).curr_date * MINUTES_PER_DAY + old(it).cursor().range.end,
        old(it).from_source(schedule_of),
        state_from_source(schedule_of, from, old(it).cursor().kind, old(it).cursor().comments@),
        valid_day_source(schedule_of),
        valid_hint(hint),
    ensures
        timeline_ok(r@, from as int, to as int),
        r@.len() > 0 && r@[0].kind == old(it).cursor().kind,
        r@[r@.len() - 1].range.end == to,
        forall|i: int| 0 <= i < r@.len() ==> state_from_source(schedule_of, (#[trigger] r@[i]).range.start, r@[i].kind, r@[i].comments@),
{
    let ghost k0 = it.cursor().kind;
    let ghost c0 = it.cursor().comments@;
    let mut out: Vec<DateTimeRange> = Vec::new();
    loop
        invariant_except_break
            it.wf(),
            to <= it.end_datetime,
            out@.len() == 0 ==> it.has_cursor() && it.position() <= from && from < it.curr_date
                * MINUTES_PER_DAY + it.cursor().range.end && it.cursor().kind == k0 && it.cursor().comments@ == c0,
            out@.len() > 0 ==> out@[out@.len() - 1].range.end == if it.position() < to {
                it.position()
            } else {
                to as int
            },
            out@.len() > 0 && it.has_cursor() ==> it.cursor().kind != out@[out@.len() - 1].kind,
        invariant
            from < to,
            it.from_source(schedule_of),
            state_from_source(schedule_of, from, k0, c0),
            forall|i: int| 0 <= i < out@.len() ==> state_from_source(schedule_of, (#[trigger] out@[i]).range.start, out@[i].kind, out@[i].comments@),
            valid_day_source(schedule_of),
            valid_hint(hint),
            timeline_ok(out@, from as int, to as int),
            out@.len() > 0 ==> out@[0].kind == k0,
            out@.len() > 0 && !it.has_cursor() ==> it.position() > it.end_datetime,
        ensures
            timeline_ok(out@, from as int, to as int),
            out@.len() > 0 && out@[0].kind == k0,
            out@[out@.len() - 1].range.end == to,
            forall|i: int| 0 <= i < out@.len() ==> state_from_source(schedule_of, (#[trigger] out@[i]).range.start, out@[i].kind, out@[i].comments@),
        decreases it.remaining(),
    {
        let ghost before = *it;
        let ghost old_out = out@;
        let ghost old_start = it.cursor().range.start;
        let ghost old_date = it.curr_date;
        assert(it.has_cursor() ==> it.curr_date <= DATE_LIMIT_DAYS);
        match it.next(schedule_of, hint) {
            None => {
                break;
            },
            Some(d) => {
                if d.range.start >= to {
                    break;
                }
                let start = if d.range.start >= from { d.range.start } else { from };
                proof {
                    if old_out.len() > 0 {
                        assert(start == d.range.start);
                        assert(old_start < MINUTES_PER_DAY);
                        lemma_fundamental_div_mod_converse(
                            d.range.start as int,
                            MINUTES_PER_DAY as int,
                            old_date as int,
                            old_start as int,
                        );
                        let sc = choose|sc: Schedule|
                            #[trigger] schedule_of.ensures((old_date,), sc) && fill_slot(
                                sc@[old_start as int],
                            ) == (d.kind, d.comments@);
                        assert(((start / MINUTES_PER_DAY) as u64) == old_date);
                        assert(schedule_of.ensures(((start / MINUTES_PER_DAY) as u64,), sc) && fill_slot(
                            sc@[(start % MINUTES_PER_DAY) as int],
                        ) == (d.kind, d.comments@));
                    } else {
                        assert(start == from);
                    }
                }
                let end = if d.range.end <= to { d.range.end } else { to };
                let kind = d.kind;
                out.push(DateTimeRange { range: Range { start, end }, kind, comments: d.comments });
                proof {
                    let q = out@;
                    assert(q[q.len() - 1].range.start == start);
                    assert forall|i: int|
                        0 <= i < q.len() implies from <= (#[trigger] q[i]).range.start && q[i].range.start
                        < q[i].range.end && q[i].range.end <= to by {
                        if i < old_out.len() {
                            assert(q[i] == old_out[i]);
                        }
                    }
                    assert forall|i: int, j: int|
                        #![trigger q[i], q[j]]
                        0 <= i && j == i + 1 && j < q.len() implies q[i].range.end == q[j].range.start
                            && q[i].kind != q[j].kind by {
                        assert(q[i] == old_out[i]);
                        if j < old_out.len() {
                            assert(q[j] == old_out[j]);
                        }
                    }
                    if old_out.len() > 0 {
                        assert(q[0] == old_out[0]);
                    }
                    assert forall|i: int| 0 <= i < q.len() implies state_from_source(schedule_of, (#[trigger] q[i]).range.start, q[i].kind, q[i].comments@) by {
                        if i < old_out.len() {
                            assert(q[i] == old_out[i]);
                        }
                    }
                }
            },
        }
    }
    out
}

/// The intervals from `from` to `to`, each cut to that window; an error when
/// `from` is at or past the date limit, or `to` past it.
pub fn iter_range<F: Fn(u64) -> Schedule, H: Fn(u64) -> Option<u64>>(
    from: u64,
    to: u64,
    schedule_of: &F,
    hint: &H,
) -> (r: Result<Vec<DateTimeRange>, Error>)
    requires
        valid_day_source(schedule_of),
        valid_hint(hint),
    ensures
        from >= DATE_LIMIT <==> r == Err::<Vec<DateTimeRange>, Error>(Error::DateLimitExceeded(from)),
        from < DATE_LIMIT && to > DATE_LIMIT ==> r == Err::<Vec<DateTimeRange>, Error>(
            Error::DateLimitExceeded(to),
        ),
        r is Ok <==> from < DATE_LIMIT && to <= DATE_LIMIT,
        r matches Ok(v) ==> timeline_ok(v@, from as int, to as int) && (from < to <==> v@.len() > 0),
        r matches Ok(v) ==> (v@.len() > 0 ==> v@[v@.len() - 1].range.end == to),
        r matches Ok(v) ==> forall|i: int|
            0 <= i < v@.len() ==> state_from_source(schedule_of, (#[trigger] v@[i]).range.start, v@[i].kind, v@[i].comments@)
                && sorted_ids(v@[i].comments@),
{
    if from >= DATE_LIMIT {
        Err(Error::DateLimitExceeded(from))
    } else if to > DATE_LIMIT {
        Err(Error::DateLimitExceeded(to))
    } else {
        if to <= from {
            return Ok(Vec::new());
        }
        let mut it = TimeDomainIterator::new(from, to, schedule_of);
        proof {
            let sc = choose|sc: Schedule|
                #[trigger] schedule_of.ensures((it.curr_date,), sc) && fill_slot(
                    sc@[(from % MINUTES_PER_DAY) as int],
                ) == (it.cursor().kind, it.cursor().comments@);
            assert(schedule_of.ensures(((from / MINUTES_PER_DAY) as u64,), sc) && fill_slot(sc@[(from % MINUTES_PER_DAY) as int]) == (it.cursor().kind, it.cursor().comments@));
        }
        let v = collect_range(&mut it, from, to, schedule_of, hint);
        Ok(v)
    }
}

/// A cursor that starts at `from` and walks up to the date limit.
pub fn iter_from<F: Fn(u64) -> Schedule>(from: u64, schedule_of: &F) -> (r: Result<TimeDomainIterator, Error>)
    requires
        valid_day_source(schedule_of),
    ensures
        from >= DATE_LIMIT <==> r == Err::<TimeDomainIterator, Error>(Error::DateLimitExceeded(from)),
        r is Ok <==> from < DATE_LIMIT,
        r matches Ok(it) ==> {
            &&& it.wf()
            &&& it.from_source(schedule_of)
            &&& it.end_datetime == DATE_LIMIT
            &&& it.curr_date == from / MINUTES_PER_DAY
            &&& it.has_cursor()
            &&& it.position() <= from < it.curr_date * MINUTES_PER_DAY + it.cursor().range.end
            &&& exists|s: Schedule|
                #[trigger] schedule_of.ensures((it.curr_date,), s) && fill_slot(s@[(from % MINUTES_PER_DAY) as int])
                    == (it.cursor().kind, it.cursor().comments@)
        },
{
    if from >= DATE_LIMIT {
        Err(Error::DateLimitExceeded(from))
    } else {
        Ok(TimeDomainIterator::new(from, DATE_LIMIT, schedule_of))
    }
}

/// The intervals of the walk that starts at `from` and goes on to the date
/// limit, up to `to`, each cut to `from..to`; empty when `to` is not after
/// `from`.
pub fn intervals<F: Fn(u64) -> Schedule, H: Fn(u64) -> Option<u64>>(
    from: u64,
    to: u64,
    schedule_of: &F,
    hint: &H,
) -> (r: Result<Vec<DateTimeRange>, Error>)
    requires
        valid_day_source(schedule_of),
        valid_hint(hint),
    ensures
        from >= DATE_LIMIT <==> r == Err::<Vec<DateTimeRange>, Error>(Error::DateLimitExceeded(from)),
        r is Ok <==> from < DATE_LIMIT,
        r matches Ok(v) ==> timeline_ok(v@, from as int, to as int) && (from < to <==> v@.len() > 0),
        r matches Ok(v) ==> (v@.len() > 0 ==> v@[v@.len() - 1].range.end == if to <= DATE_LIMIT {
            to
        } else {
            DATE_LIMIT
        }),
        r matches Ok(v) ==> forall|i: int|
            0 <= i < v@.len() ==> state_from_source(schedule_of, (#[trigger] v@[i]).range.start, v@[i].kind, v@[i].comments@)
                && sorted_ids(v@[i].comments@),
{
    if from >= DATE_LIMIT {
        return Err(Error::DateLimitExceeded(from));
    }
    if to <= from {
        return Ok(Vec::new());
    }
    let mut it = TimeDomainIterator::new(from, DATE_LIMIT, schedule_of);
    proof {
        let sc = choose|sc: Schedule|
            #[trigger] schedule_of.ensures((it.curr_date,), sc) && fill_slot(
                sc@[(from % MINUTES_PER_DAY) as int],
            ) == (it.cursor().kind, it.cursor().comments@);
        assert(schedule_of.ensures(((from / MINUTES_PER_DAY) as u64,), sc) && fill_slot(sc@[(from % MINUTES_PER_DAY) as int]) == (it.cursor().kind, it.cursor().comments@));
    }
    let upto = if to <= DATE_LIMIT { to } else { DATE_LIMIT };
    let v = collect_range(&mut it, from, upto, schedule_of, hint);
    Ok(v)
}

/// The kind of minute `m` of a day's states, gaps counting as closed.
pub open spec fn kind_at(states: Seq<SlotView>, m: int) -> RuleKind {
    fill_slot(states[m]).0
}

/// The kind that schedule `s` gives to the minute of day of instant `t`,
/// gaps counting as closed.
pub open spec fn kind_in(s: Schedule, t: u64) -> RuleKind {
    fill_slot(s@[(t % MINUTES_PER_DAY) as int]).0
}

/// The instant at which the state that holds at `current_time` ends: the
/// end of the first interval of the walk that starts there, or the date
/// limit when it holds up to there.
pub fn next_change<F: Fn(u64) -> Schedule, H: Fn(u64) -> Option<u64>>(
    current_time: u64,
    schedule_of: &F,
    hint: &H,
) -> (r: Result<u64, Error>)
    requires
        valid_day_source(schedule_of),
        valid_hint(hint),
    ensures
        current_time >= DATE_LIMIT <==> r == Err::<u64, Error>(Error::DateLimitExceeded(current_time)),
        r is Ok <==> current_time < DATE_LIMIT,
        r matches Ok(v) ==> current_time < v <= DATE_LIMIT,
        r matches Ok(v) ==> exists|s: Schedule|
            #[trigger] schedule_of.ensures((current_time / MINUTES_PER_DAY,), s) && run_ends_at(
                s@,
                current_time,
                v as int,
            ),
{
    if current_time >= DATE_LIMIT {
        return Err(Error::DateLimitExceeded(current_time));
    }
    let mut it = TimeDomainIterator::new(current_time, DATE_LIMIT, schedule_of);
    let ghost before = it;
    let ghost day = current_time / MINUTES_PER_DAY;
    let ghost m0 = (current_time % MINUTES_PER_DAY) as int;
    proof {
        lemma_fundamental_div_mod(current_time as int, MINUTES_PER_DAY as int);
        reveal(fills_until);
        assert(fill_slot(it.day_states@[m0]) == state_of(it.curr_schedule@[it.pos as int]));
    }
    match it.next(schedule_of, hint) {
        Some(d) => {
            let v = d.range.end;
            proof {
                let ds = before.day_states@;
                let sc = choose|sc: Schedule| #[trigger] schedule_of.ensures((before.curr_date,), sc) && sc@ == ds;
                assert(kind_at(ds, m0) == d.kind);
                if it.curr_date == before.curr_date {
                    let p = it.cursor().range.start as int;
                    assert forall|m: int| m0 <= m < MINUTES_PER_DAY && kind_at(ds, m) != kind_at(ds, m0) implies v
                        <= day * MINUTES_PER_DAY + m by {
                        if m < p {
                            assert(kind_at(ds, m) == d.kind);
                        }
                    }
                }
                assert(run_ends_at(sc@, current_time, v as int));
            }
            Ok(v)
        },
        None => Ok(DATE_LIMIT),
    }
}

/// In the states `states` of the day of `t`, every minute from `t` on that
/// comes before `v` has the kind of `t`, and `v` comes no later than the
/// first minute of that day with another kind.
pub open spec fn run_ends_at(states: Seq<SlotView>, t: u64, v: int) -> bool {
    let day = (t / MINUTES_PER_DAY) as int;
    let m0 = (t % MINUTES_PER_DAY) as int;
    &&& forall|m: int|
        m0 <= m < MINUTES_PER_DAY && day * MINUTES_PER_DAY + m < v ==> #[trigger] kind_at(states, m) == kind_at(
            states,
            m0,
        )
    &&& forall|m: int|
        m0 <= m < MINUTES_PER_DAY && #[trigger] kind_at(states, m) != kind_at(states, m0) ==> v <= day
            * MINUTES_PER_DAY + m
}

/// The state at `current_time`: the kind of the interval that holds the
/// minute from that instant on.
pub fn state<F: Fn(u64) -> Schedule, H: Fn(u64) -> Option<u64>>(
    current_time: u64,
    schedule_of: &F,
    hint: &H,
) -> (r: Result<RuleKind, Error>)
    requires
        valid_day_source(schedule_of),
        valid_hint(hint),
    ensures
        current_time >= DATE_LIMIT <==> r == Err::<RuleKind, Error>(Error::DateLimitExceeded(current_time)),
        r is Ok <==> current_time < DATE_LIMIT,
        r matches Ok(k) ==> exists|s: Schedule|
            #[trigger] schedule_of.ensures((current_time / MINUTES_PER_DAY,), s) && k == kind_in(s, current_time),
{
    if current_time >= DATE_LIMIT {
        return Err(Error::DateLimitExceeded(current_time));
    }
    let mut it = TimeDomainIterator::new(current_time, current_time + 1, schedule_of);
    match it.next(schedule_of, hint) {
        Some(d) => Ok(d.kind),
        None => Ok(RuleKind::Unknown),
    }
}

/// The state at `current_time` is open; false past the date limit.
pub fn is_open<F: Fn(u64) -> Schedule, H: Fn(u64) -> Option<u64>>(current_time: u64, schedule_of: &F, hint: &H) -> (r:
    bool)
    requires
        valid_day_source(schedule_of),
        valid_hint(hint),
    ensures
        current_time >= DATE_LIMIT ==> !r,
        current_time < DATE_LIMIT ==> exists|s: Schedule|
            #[trigger] schedule_of.ensures((current_time / MINUTES_PER_DAY,), s) && r == (kind_in(s, current_time)
                == RuleKind::Open),
{
    match state(current_time, schedule_of, hint) {
        Ok(RuleKind::Open) => true,
        _ => false,
    }
}

/// The state at `current_time` is closed; false past the date limit.
pub fn is_closed<F: Fn(u64) -> Schedule, H: Fn(u64) -> Option<u64>>(current_time: u64, schedule_of: &F, hint: &H) -> (r:
    bool)
    requires
        valid_day_source(schedule_of),
        valid_hint(hint),
    ensures
        current_time >= DATE_LIMIT ==> !r,
        current_time < DATE_LIMIT ==> exists|s: Schedule|
            #[trigger] schedule_of.ensures((current_time / MINUTES_PER_DAY,), s) && r == (kind_in(s, current_time)
                == RuleKind::Closed),
{
    match state(current_time, schedule_of, hint) {
        Ok(RuleKind::Closed) => true,
        _ => false,
    }
}

/// The state at `current_time` is unknown; true past the date limit, where
/// nothing is known.
pub fn is_unknown<F: Fn(u64) -> Schedule, H: Fn(u64) -> Option<u64>>(current_time: u64, schedule_of: &F, hint: &H) -> (r:
    bool)
    requires
        valid_day_source(schedule_of),
        valid_hint(hint),
    ensures
        current_time >= DATE_LIMIT ==> r,
        current_time < DATE_LIMIT ==> exists|s: Schedule|
            #[trigger] schedule_of.ensures((current_time / MINUTES_PER_DAY,), s) && r == (kind_in(s, current_time)
                == RuleKind::Unknown),
{
    match state(current_time, schedule_of, hint) {
        Ok(RuleKind::Unknown) => true,
        Err(Error::DateLimitExceeded(_)) => true,
        _ => false,
    }
}

/// The earliest of the rules' hints, or no hint when there is no rule or some
/// rule gives none.
pub open spec fn earliest_hint(hints: Seq<Option<u64>>) -> Option<u64>
    decreases hints.len(),
{
    if hints.len() == 0 {
        None
    } else if hints.len() == 1 {
        hints[0]
    } else {
        match (hints[0], earliest_hint(hints.drop_first())) {
            (Some(a), Some(b)) => Some(if a <= b { a } else { b }),
            _ => None,
        }
    }
}

/// Next-change hint of a rule sequence after `day`, from the hints of its
/// rules' day selectors: the earliest of them, kept only when it is a later
/// day.
pub fn next_change_hint(day: u64, hints: &Vec<Option<u64>>) -> (r: Option<u64>)
    ensures
        r == (match earliest_hint(hints@) {
            Some(n) => if n > day {
                Some(n)
            } else {
                None::<u64>
            },
            None => None,
        }),
{
    let n = hints.len();
    if n == 0 {
        return None;
    }
    let mut acc: Option<u64> = hints[n - 1];
    let mut i: usize = n - 1;
    while i > 0
        invariant
            0 <= i < n,
            n == hints@.len(),
            acc == earliest_hint(hints@.subrange(i as int, n as int)),
        decreases i,
    {
        i = i - 1;
        let ghost rest = hints@.subrange(i + 1, n as int);
        assert(hints@.subrange(i as int, n as int).drop_first() =~= rest);
        acc = match (hints[i], acc) {
            (Some(a), Some(b)) => Some(if a <= b { a } else { b }),
            _ => None,
        };
    }
    assert(hints@.subrange(0, n as int) =~= hints@);
    match acc {
        Some(next) => if next > day {
            Some(next)
        } else {
            None
        },
        None => None,
    }
}

fn copy_comments(v: &Vec<u32>) -> (r: Vec<u32>)
    ensures
        r@ == v@,
{
    let mut r: Vec<u32> = Vec::new();
    let mut i: usize = 0;
    while i < v.len()
        invariant
            i <= v.len(),
            r@ == v@.subrange(0, i as int),
        decreases v.len() - i,
    {
        r.push(v[i]);
        i = i + 1;
        assert(r@ =~= v@.subrange(0, i as int));
    }
    assert(v@.subrange(0, v.len() as int) =~= v@);
    r
}

} // verus!
