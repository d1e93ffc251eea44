//! Day schedules: the state of each minute of one calendar day.
use std::ops::Range;
use vstd::prelude::*;
use crate::range::{covers, hull_covers, lemma_covers_push, time_ranges_union, valid_range};

verus! {

/// Number of minutes in a nominal day.
pub const MINUTES_PER_DAY: u64 = 1440;

/// The state that a rule gives to the times it selects.
#[derive(Clone, Copy, Debug, PartialEq, Eq, Structural, Hash)]
pub enum RuleKind {
    Open,
    Closed,
    Unknown,
}

/// Override strength of a state when two additional rules overlap.
pub open spec fn priority(k: RuleKind) -> int {
    match k {
        RuleKind::Unknown => 0,
        RuleKind::Closed => 1,
        RuleKind::Open => 2,
    }
}

/// The state of one minute in mathematical form: a kind and comment ids.
pub type SlotView = Option<(RuleKind, Seq<u32>)>;

/// Merge of two sorted lists of comment ids, keeping one copy of an id found
/// in both.
pub open spec fn merge_comments(a: Seq<u32>, b: Seq<u32>) -> Seq<u32>
    decreases a.len() + b.len(),
{
    if a.len() == 0 {
        b
    } else if b.len() == 0 {
        a
    } else if a[0] < b[0] {
        seq![a[0]] + merge_comments(a.drop_first(), b)
    } else if b[0] < a[0] {
        seq![b[0]] + merge_comments(a, b.drop_first())
    } else {
        seq![a[0]] + merge_comments(a.drop_first(), b.drop_first())
    }
}

/// Overlay of two minute states: the stronger kind wins and the comments of
/// both sides are kept.
pub open spec fn add_slot(a: SlotView, b: SlotView) -> SlotView {
    match (a, b) {
        (Some((ka, ca)), Some((kb, cb))) => Some(
            (if priority(kb) > priority(ka) { kb } else { ka }, merge_comments(ca, cb)),
        ),
        (Some(x), None) => Some(x),
        (None, y) => y,
    }
}

/// A gap of the schedule is closed and carries no comment.
pub open spec fn fill_slot(a: SlotView) -> (RuleKind, Seq<u32>) {
    match a {
        Some(x) => x,
        None => (RuleKind::Closed, Seq::empty()),
    }
}

/// Some range of `ranges` holds minute `t`.
pub open spec fn selects(ranges: Seq<Range<u64>>, t: int) -> bool {
    exists|i: int| 0 <= i < ranges.len() && (#[trigger] ranges[i]).start <= t && t < ranges[i].end
}

/// A sub-interval of a day with its state and sorted comment ids.
pub struct TimeRange {
    pub range: Range<u64>,
    pub kind: RuleKind,
    pub comments: Vec<u32>,
}

/// The state of one minute.
pub struct Slot {
    pub kind: RuleKind,
    pub comments: Vec<u32>,
}

pub open spec fn slot_view(s: Option<Slot>) -> SlotView {
    match s {
        Some(x) => Some((x.kind, x.comments@)),
        None => None,
    }
}

/// States of the minutes of a day; a minute without a state is not selected
/// by any rule.
pub struct Schedule {
    pub slots: Vec<Option<Slot>>,
}

impl View for Schedule {
    type V = Seq<SlotView>;

    open spec fn view(&self) -> Seq<SlotView> {
        self.slots@.map_values(|s: Option<Slot>| slot_view(s))
    }
}

/// The state that a range carries.
pub open spec fn state_of(tr: TimeRange) -> (RuleKind, Seq<u32>) {
    (tr.kind, tr.comments@)
}

/// `out` fills the minutes of `sched` before `upto`: consecutive non-empty
/// ranges from 00:00, each with the state of every minute it holds, and no
/// two neighbours with the same state.
#[verifier::opaque]
pub open spec fn fills_until(out: Seq<TimeRange>, sched: Seq<SlotView>, upto: int) -> bool {
    &&& out.len() == 0 ==> upto == 0
    &&& out.len() > 0 ==> out[0].range.start == 0 && out[out.len() - 1].range.end == upto
    &&& forall|i: int| 0 <= i < out.len() ==> (#[trigger] out[i]).range.start < out[i].range.end
    &&& forall|i: int, j: int|
        #![trigger out[i], out[j]]
        0 <= i && j == i + 1 && j < out.len() ==> out[i].range.end == out[j].range.start
    &&& forall|i: int, t: int|
        0 <= i < out.len() && (#[trigger] out[i]).range.start <= t < out[i].range.end ==> fill_slot(
            #[trigger] sched[t],
        ) == state_of(out[i])
    &&& forall|i: int, j: int|
        #![trigger out[i], out[j]]
        0 <= i && j == i + 1 && j < out.len() ==> state_of(out[i]) != state_of(out[j])
}

/// The filled form of a schedule: consecutive ranges from 00:00 to 24:00,
/// each of them a maximal run of minutes with one state.
pub open spec fn is_filling_of(out: Seq<TimeRange>, sched: Seq<SlotView>) -> bool {
    out.len() > 0 && fills_until(out, sched, MINUTES_PER_DAY as int)
}

proof fn lemma_push_run(out: Seq<TimeRange>, sched: Seq<SlotView>, upto: int, tr: TimeRange)
    requires
        fills_until(out, sched, upto),
        tr.range.start == upto,
        tr.range.start < tr.range.end,
        forall|t: int| tr.range.start <= t < tr.range.end ==> fill_slot(#[trigger] sched[t]) == state_of(tr),
        out.len() > 0 ==> state_of(out[out.len() - 1]) != state_of(tr),
    ensures
        fills_until(out.push(tr), sched, tr.range.end as int),
{
    reveal(fills_until);
    let q = out.push(tr);
    assert forall|i: int, t: int|
        0 <= i < q.len() && (#[trigger] q[i]).range.start <= t < q[i].range.end implies fill_slot(
            #[trigger] sched[t],
        ) == state_of(q[i]) by {
        if i < out.len() {
            assert(q[i] == out[i]);
        }
    }
    assert forall|i: int, j: int|
        #![trigger q[i], q[j]]
        0 <= i && j == i + 1 && j < q.len() implies state_of(q[i]) != state_of(q[j]) by {
        assert(q[i] == out[i]);
        if j < out.len() {
            assert(q[j] == out[j]);
        }
    }
    assert forall|i: int, j: int|
        #![trigger q[i], q[j]]
        0 <= i && j == i + 1 && j < q.len() implies q[i].range.end == q[j].range.start by {
        assert(q[i] == out[i]);
        if j < out.len() {
            assert(q[j] == out[j]);
        }
    }
}

proof fn lemma_filling_ordered(out: Seq<TimeRange>, sched: Seq<SlotView>, i: int, j: int)
    requires
        is_filling_of(out, sched),
        0 <= i < j < out.len(),
    ensures
        out[i].range.end <= out[j].range.start,
    decreases j - i,
{
    reveal(fills_until);
    if j > i + 1 {
        lemma_filling_ordered(out, sched, i, j - 1);
        assert(out[j - 1].range.start < out[j - 1].range.end);
    }
    assert(out[j - 1].range.end == out[j].range.start);
}

proof fn lemma_filling_covers(out: Seq<TimeRange>, sched: Seq<SlotView>, k: int, t: int)
    requires
        is_filling_of(out, sched),
        0 <= k < out.len(),
        0 <= t < out[k].range.end,
    ensures
        exists|i: int| 0 <= i <= k && (#[trigger] out[i]).range.start <= t < out[i].range.end,
    decreases k,
{
    reveal(fills_until);
    if t < out[k].range.start {
        assert(k > 0);
        assert(out[k - 1].range.end == out[k].range.start);
        lemma_filling_covers(out, sched, k - 1, t);
        let i = choose|i: int| 0 <= i <= k - 1 && (#[trigger] out[i]).range.start <= t < out[i].range.end;
        assert(0 <= i <= k && out[i].range.start <= t < out[i].range.end);
    } else {
        assert(out[k].range.start <= t < out[k].range.end);
    }
}

/// Minute `t` lies in range `tr`.
pub open spec fn holds(tr: TimeRange, t: int) -> bool {
    tr.range.start <= t < tr.range.end
}

/// Some range of `out` holds minute `t`.
pub open spec fn covered(out: Seq<TimeRange>, t: int) -> bool {
    exists|i: int| 0 <= i < out.len() && #[trigger] holds(out[i], t)
}

/// A filled schedule partitions the day: its ranges do not overlap, and each
/// minute from 00:00 to 24:00 lies in exactly one of them.
pub proof fn lemma_filling_partitions_day(out: Seq<TimeRange>, sched: Seq<SlotView>)
    requires
        is_filling_of(out, sched),
    ensures
        forall|i: int, j: int|
            0 <= i < j < out.len() ==> (#[trigger] out[i]).range.end <= (#[trigger] out[j]).range.start,
        forall|t: int| 0 <= t < MINUTES_PER_DAY ==> #[trigger] covered(out, t),
        forall|t: int, i: int, j: int|
            0 <= i < out.len() && 0 <= j < out.len() && #[trigger] holds(out[i], t) && #[trigger] holds(out[j], t)
                ==> i == j,
{
    assert forall|i: int, j: int| 0 <= i < j < out.len() implies (#[trigger] out[i]).range.end
        <= (#[trigger] out[j]).range.start by {
        lemma_filling_ordered(out, sched, i, j);
    }
    assert forall|t: int| 0 <= t < MINUTES_PER_DAY implies #[trigger] covered(out, t) by {
        reveal(fills_until);
        lemma_filling_covers(out, sched, out.len() - 1, t);
        let i = choose|i: int| 0 <= i <= out.len() - 1 && (#[trigger] out[i]).range.start <= t < out[i].range.end;
        assert(holds(out[i], t));
    }
    assert forall|t: int, i: int, j: int|
        0 <= i < out.len() && 0 <= j < out.len() && #[trigger] holds(out[i], t) && #[trigger] holds(out[j], t)
            implies i == j by {
        if i < j {
            lemma_filling_ordered(out, sched, i, j);
        } else if j < i {
            lemma_filling_ordered(out, sched, j, i);
        }
    }
}

/// Strictly increasing: sorted and without duplicates.
pub open spec fn sorted_ids(s: Seq<u32>) -> bool {
    forall|i: int, j: int| 0 <= i < j < s.len() ==> (#[trigger] s[i]) < (#[trigger] s[j])
}

proof fn lemma_sorted_tail(s: Seq<u32>)
    requires
        sorted_ids(s),
        s.len() > 0,
    ensures
        sorted_ids(s.drop_first()),
        forall|x: u32| s.drop_first().contains(x) ==> s[0] < x,
{
    assert forall|x: u32| s.drop_first().contains(x) implies s[0] < x by {
        let k = choose|k: int| 0 <= k < s.drop_first().len() && s.drop_first()[k] == x;
        assert(s[k + 1] == x);
    }
    assert forall|i: int, j: int| 0 <= i < j < s.drop_first().len() implies (#[trigger] s.drop_first()[i]) < (
    #[trigger] s.drop_first()[j]) by {
        assert(s[i + 1] < s[j + 1]);
    }
}

proof fn lemma_sorted_cons(x: u32, s: Seq<u32>)
    requires
        sorted_ids(s),
        forall|y: u32| s.contains(y) ==> x < y,
    ensures
        sorted_ids(seq![x] + s),
{
    let q = seq![x] + s;
    assert forall|i: int, j: int| 0 <= i < j < q.len() implies (#[trigger] q[i]) < (#[trigger] q[j]) by {
        if i == 0 {
            assert(q[j] == s[j - 1]);
            assert(s.contains(s[j - 1]));
        } else {
            assert(q[i] == s[i - 1] && q[j] == s[j - 1]);
        }
    }
}

/// The merge holds exactly the ids of both lists, and keeps them strictly
/// increasing when both lists are.
pub proof fn lemma_merge_comments(a: Seq<u32>, b: Seq<u32>)
    ensures
        forall|x: u32| #[trigger] merge_comments(a, b).contains(x) <==> a.contains(x) || b.contains(x),
        sorted_ids(a) && sorted_ids(b) ==> sorted_ids(merge_comments(a, b)),
    decreases a.len() + b.len(),
{
    if a.len() == 0 {
        assert forall|x: u32| #[trigger] merge_comments(a, b).contains(x) <==> a.contains(x) || b.contains(x) by {}
    } else if b.len() == 0 {
        assert forall|x: u32| #[trigger] merge_comments(a, b).contains(x) <==> a.contains(x) || b.contains(x) by {}
    } else {
        let (head, ta, tb) = if a[0] < b[0] {
            (a[0], a.drop_first(), b)
        } else if b[0] < a[0] {
            (b[0], a, b.drop_first())
        } else {
            (a[0], a.drop_first(), b.drop_first())
        };
        lemma_merge_comments(ta, tb);
        let m = merge_comments(ta, tb);
        assert(merge_comments(a, b) == seq![head] + m);
        assert(a =~= seq![a[0]] + a.drop_first());
        assert(b =~= seq![b[0]] + b.drop_first());
        assert forall|x: u32| #[trigger] merge_comments(a, b).contains(x) <==> a.contains(x) || b.contains(x) by {
            assert((seq![head] + m).contains(x) <==> (x == head || m.contains(x))) by {
                if m.contains(x) {
                    let k = choose|k: int| 0 <= k < m.len() && m[k] == x;
                    assert((seq![head] + m)[k + 1] == x);
                }
                if x == head {
                    assert((seq![head] + m)[0] == x);
                }
                if (seq![head] + m).contains(x) {
                    let k = choose|k: int| 0 <= k < m.len() + 1 && (seq![head] + m)[k] == x;
                    if k > 0 {
                        assert(m[k - 1] == x);
                    }
                }
            }
            assert(a.contains(x) <==> (x == a[0] || a.drop_first().contains(x))) by {
                if a.contains(x) {
                    let k = choose|k: int| 0 <= k < a.len() && a[k] == x;
                    if k > 0 {
                        assert(a.drop_first()[k - 1] == x);
                    }
                }
                if a.drop_first().contains(x) {
                    let k = choose|k: int| 0 <= k < a.drop_first().len() && a.drop_first()[k] == x;
                    assert(a[k + 1] == x);
                }
                assert(a[0] == a[0]);
                assert(a.contains(a[0]));
            }
            assert(b.contains(x) <==> (x == b[0] || b.drop_first().contains(x))) by {
                if b.contains(x) {
                    let k = choose|k: int| 0 <= k < b.len() && b[k] == x;
                    if k > 0 {
                        assert(b.drop_first()[k - 1] == x);
                    }
                }
                if b.drop_first().contains(x) {
                    let k = choose|k: int| 0 <= k < b.drop_first().len() && b.drop_first()[k] == x;
                    assert(b[k + 1] == x);
                }
                assert(b.contains(b[0]));
            }
        }
        if sorted_ids(a) && sorted_ids(b) {
            lemma_sorted_tail(a);
            lemma_sorted_tail(b);
            assert forall|y: u32| m.contains(y) implies head < y by {}
            lemma_sorted_cons(head, m);
        }
    }
}

/// A minute is selected by ranges exactly when the grid point just after it
/// lies in their hulls.
proof fn lemma_selects_covers(s: Seq<Range<u64>>, t: int)
    ensures
        selects(s, t) == covers(s, 2 * t + 1),
{
    reveal(covers);
    if selects(s, t) {
        let i = choose|i: int| 0 <= i < s.len() && (#[trigger] s[i]).start <= t && t < s[i].end;
        assert(s.contains(s[i]) && hull_covers(s[i], 2 * t + 1));
    }
    if covers(s, 2 * t + 1) {
        let r = choose|r: Range<u64>| #[trigger] s.contains(r) && hull_covers(r, 2 * t + 1);
        let i = choose|i: int| 0 <= i < s.len() && s[i] == r;
        assert(s[i].start <= t && t < s[i].end);
    }
}

/// The non-empty ranges of `ranges`, merged.
fn merged_ranges(ranges: &Vec<Range<u64>>) -> (r: Vec<Range<u64>>)
    ensures
        forall|t: int| #[trigger] selects(r@, t) == selects(ranges@, t),
{
    let mut valid: Vec<Range<u64>> = Vec::new();
    let mut i: usize = 0;
    while i < ranges.len()
        invariant
            i <= ranges.len(),
            forall|k: int| 0 <= k < valid@.len() ==> valid_range(#[trigger] valid@[k]),
            forall|t: int| #[trigger] selects(valid@, t) == selects(ranges@.subrange(0, i as int), t),
        decreases ranges.len() - i,
    {
        let x = Range { start: ranges[i].start, end: ranges[i].end };
        let ghost old_valid = valid@;
        let ghost sub = ranges@.subrange(0, i as int);
        assert(ranges@.subrange(0, i + 1) =~= sub.push(x));
        if x.start < x.end {
            valid.push(x);
            assert(valid@ == old_valid.push(x));
        }
        assert forall|t: int| #[trigger] selects(valid@, t) == selects(ranges@.subrange(0, i + 1), t) by {
            lemma_selects_covers(valid@, t);
            lemma_selects_covers(old_valid, t);
            lemma_selects_covers(sub, t);
            lemma_selects_covers(sub.push(x), t);
            lemma_covers_push(sub, x, 2 * t + 1);
            lemma_covers_push(old_valid, x, 2 * t + 1);
        }
        assert forall|k: int| 0 <= k < valid@.len() implies valid_range(#[trigger] valid@[k]) by {
            if k < old_valid.len() {
                assert(valid@[k] == old_valid[k]);
            }
        }
        i = i + 1;
    }
    assert(ranges@.subrange(0, ranges.len() as int) =~= ranges@);
    let merged = time_ranges_union(valid);
    assert forall|t: int| #[trigger] selects(merged@, t) == selects(ranges@, t) by {
        lemma_selects_covers(merged@, t);
        lemma_selects_covers(valid@, t);
    }
    merged
}

/// The comment ids of a minute's state are strictly increasing.
pub open spec fn slot_sorted(x: SlotView) -> bool {
    match x {
        Some((_, c)) => sorted_ids(c),
        None => true,
    }
}

/// Every minute's comment ids are strictly increasing.
pub open spec fn states_sorted(s: Seq<SlotView>) -> bool {
    forall|t: int| 0 <= t < s.len() ==> slot_sorted(#[trigger] s[t])
}

pub proof fn lemma_add_slot_sorted(a: SlotView, b: SlotView)
    requires
        slot_sorted(a),
        slot_sorted(b),
    ensures
        slot_sorted(add_slot(a, b)),
{
    if let (Some((_, ca)), Some((_, cb))) = (a, b) {
        lemma_merge_comments(ca, cb);
    }
}

fn copy_ids(v: &Vec<u32>) -> (r: Vec<u32>)
    ensures
        r@ == v@,
{
    let mut r: Vec<u32> = Vec::new();
    let mut i: usize = 0;
    while i < v.len()
        invariant
            i <= v.len(),
            r@ == v@.subrange(0, i as int),
        decreases v.len() - i,
    {
        r.push(v[i]);
        i = i + 1;
        assert(r@ =~= v@.subrange(0, i as int));
    }
    assert(v@.subrange(0, v.len() as int) =~= v@);
    r
}

fn same_ids(a: &Vec<u32>, b: &Vec<u32>) -> (r: bool)
    ensures
        r == (a@ == b@),
{
    if a.len() != b.len() {
        return false;
    }
    let mut i: usize = 0;
    while i < a.len()
        invariant
            i <= a.len(),
            a.len() == b.len(),
            a@.subrange(0, i as int) == b@.subrange(0, i as int),
        decreases a.len() - i,
    {
        if a[i] != b[i] {
            assert(a@.subrange(0, i + 1)[i as int] != b@.subrange(0, i + 1)[i as int]);
            return false;
        }
        i = i + 1;
        assert(a@.subrange(0, i as int) =~= a@.subrange(0, i - 1).push(a@[i - 1]));
        assert(b@.subrange(0, i as int) =~= b@.subrange(0, i - 1).push(b@[i - 1]));
    }
    assert(a@ =~= a@.subrange(0, a.len() as int));
    assert(b@ =~= b@.subrange(0, b.len() as int));
    true
}

/// Union of two sorted lists of comment ids.
pub fn comments_union(a: &Vec<u32>, b: &Vec<u32>) -> (r: Vec<u32>)
    ensures
        r@ == merge_comments(a@, b@),
        forall|x: u32| r@.contains(x) <==> a@.contains(x) || b@.contains(x),
        sorted_ids(a@) && sorted_ids(b@) ==> sorted_ids(r@),
{
    let r = merge_ids(a, b);
    proof {
        lemma_merge_comments(a@, b@);
    }
    r
}

fn merge_ids(a: &Vec<u32>, b: &Vec<u32>) -> (r: Vec<u32>)
    ensures
        r@ == merge_comments(a@, b@),
{
    let mut out: Vec<u32> = Vec::new();
    let mut i: usize = 0;
    let mut j: usize = 0;
    assert(a@.subrange(0, a.len() as int) =~= a@);
    assert(b@.subrange(0, b.len() as int) =~= b@);
    assert(out@ + merge_comments(a@, b@) =~= merge_comments(a@, b@));
    while i < a.len() || j < b.len()
        invariant
            i <= a.len(),
            j <= b.len(),
            out@ + merge_comments(a@.subrange(i as int, a.len() as int), b@.subrange(j as int, b.len() as int))
                == merge_comments(a@, b@),
        decreases a.len() - i + b.len() - j,
    {
        let ghost sa = a@.subrange(i as int, a.len() as int);
        let ghost sb = b@.subrange(j as int, b.len() as int);
        if i == a.len() {
            proof {
                assert(sa.len() == 0);
                assert(out@ + sb == merge_comments(a@, b@));
            }
            while j < b.len()
                invariant
                    j <= b.len(),
                    out@ + b@.subrange(j as int, b.len() as int) == merge_comments(a@, b@),
                decreases b.len() - j,
            {
                proof {
                    let sb2 = b@.subrange(j as int, b.len() as int);
                    assert(sb2 =~= seq![b@[j as int]] + b@.subrange(j + 1, b.len() as int));
                    assert(out@.push(b@[j as int]) + b@.subrange(j + 1, b.len() as int) =~= out@ + sb2);
                }
                out.push(b[j]);
                j = j + 1;
            }
            proof {
                assert(out@ =~= out@ + b@.subrange(j as int, b.len() as int));
            }
            return out;
        } else if j == b.len() {
            proof {
                assert(sb.len() == 0);
                assert(out@ + sa == merge_comments(a@, b@));
            }
            while i < a.len()
                invariant
                    i <= a.len(),
                    out@ + a@.subrange(i as int, a.len() as int) == merge_comments(a@, b@),
                decreases a.len() - i,
            {
                proof {
                    let sa2 = a@.subrange(i as int, a.len() as int);
                    assert(sa2 =~= seq![a@[i as int]] + a@.subrange(i + 1, a.len() as int));
                    assert(out@.push(a@[i as int]) + a@.subrange(i + 1, a.len() as int) =~= out@ + sa2);
                }
                out.push(a[i]);
                i = i + 1;
            }
            proof {
                assert(out@ =~= out@ + a@.subrange(i as int, a.len() as int));
            }
            return out;
        } else if a[i] < b[j] {
            proof {
                assert(sa.drop_first() =~= a@.subrange(i + 1, a.len() as int));
                assert(out@.push(a@[i as int]) + merge_comments(sa.drop_first(), sb) =~= out@ + (seq![sa[0]]
                    + merge_comments(sa.drop_first(), sb)));
            }
            out.push(a[i]);
            i = i + 1;
        } else if b[j] < a[i] {
            proof {
                assert(sb.drop_first() =~= b@.subrange(j + 1, b.len() as int));
                assert(out@.push(b@[j as int]) + merge_comments(sa, sb.drop_first()) =~= out@ + (seq![sb[0]]
                    + merge_comments(sa, sb.drop_first())));
            }
            out.push(b[j]);
            j = j + 1;
        } else {
            proof {
                assert(sa.drop_first() =~= a@.subrange(i + 1, a.len() as int));
                assert(sb.drop_first() =~= b@.subrange(j + 1, b.len() as int));
                assert(out@.push(a@[i as int]) + merge_comments(sa.drop_first(), sb.drop_first()) =~= out@ + (
                seq![sa[0]] + merge_comments(sa.drop_first(), sb.drop_first())));
            }
            out.push(a[i]);
            i = i + 1;
            j = j + 1;
        }
    }
    proof {
        assert(a@.subrange(i as int, a.len() as int).len() == 0);
        assert(out@ =~= out@ + b@.subrange(j as int, b.len() as int));
    }
    out
}

fn copy_slot(s: &Option<Slot>) -> (r: Option<Slot>)
    ensures
        slot_view(r) == slot_view(*s),
{
    match s {
        Some(x) => Some(Slot { kind: x.kind, comments: copy_ids(&x.comments) }),
        None => None,
    }
}

fn add_slots(a: &Option<Slot>, b: &Option<Slot>) -> (r: Option<Slot>)
    ensures
        slot_view(r) == add_slot(slot_view(*a), slot_view(*b)),
{
    match (a, b) {
        (Some(x), Some(y)) => {
            let kind = match (x.kind, y.kind) {
                (RuleKind::Closed, RuleKind::Open) => RuleKind::Open,
                (RuleKind::Unknown, RuleKind::Open) => RuleKind::Open,
                (RuleKind::Unknown, RuleKind::Closed) => RuleKind::Closed,
                (k, _) => k,
            };
            Some(Slot { kind, comments: merge_ids(&x.comments, &y.comments) })
        },
        (Some(_), None) => copy_slot(a),
        (None, _) => copy_slot(b),
    }
}

fn selects_minute(ranges: &Vec<Range<u64>>, t: u64) -> (r: bool)
    ensures
        r == selects(ranges@, t as int),
{
    let mut i: usize = 0;
    while i < ranges.len()
        invariant
            i <= ranges.len(),
            forall|k: int| 0 <= k < i ==> !((#[trigger] ranges@[k]).start <= t && t < ranges@[k].end),
        decreases ranges.len() - i,
    {
        if ranges[i].start <= t && t < ranges[i].end {
            return true;
        }
        i = i + 1;
    }
    false
}

impl Schedule {
    /// The schedule in which no minute is selected.
    pub fn empty() -> (r: Schedule)
        ensures
            r@.len() == MINUTES_PER_DAY,
            forall|t: int| 0 <= t < MINUTES_PER_DAY ==> (#[trigger] r@[t]) is None,
    {
        let mut slots: Vec<Option<Slot>> = Vec::new();
        let mut t: u64 = 0;
        while t < MINUTES_PER_DAY
            invariant
                t <= MINUTES_PER_DAY,
                slots@.len() == t,
                forall|u: int| 0 <= u < t ==> (#[trigger] slots@[u]) is None,
            decreases MINUTES_PER_DAY - t,
        {
            slots.push(None);
            t = t + 1;
        }
        Schedule { slots }
    }

    /// The schedule of one rule: the non-empty `ranges` are merged, then each
    /// minute that one of them holds gets `kind` and `comments`; the others
    /// are not selected.
    pub fn from_ranges(ranges: &Vec<Range<u64>>, kind: RuleKind, comments: &Vec<u32>) -> (r: Schedule)
        ensures
            r@.len() == MINUTES_PER_DAY,
            forall|t: int|
                0 <= t < MINUTES_PER_DAY ==> (#[trigger] r@[t]) == (if selects(ranges@, t) {
                    Some((kind, comments@))
                } else {
                    None
                }),
    {
        let merged = merged_ranges(ranges);
        let mut slots: Vec<Option<Slot>> = Vec::new();
        let mut t: u64 = 0;
        while t < MINUTES_PER_DAY
            invariant
                t <= MINUTES_PER_DAY,
                slots@.len() == t,
                forall|u: int| #[trigger] selects(merged@, u) == selects(ranges@, u),
                forall|u: int|
                    0 <= u < t ==> slot_view(#[trigger] slots@[u]) == (if selects(ranges@, u) {
                        Some((kind, comments@))
                    } else {
                        None
                    }),
            decreases MINUTES_PER_DAY - t,
        {
            if selects_minute(&merged, t) {
                slots.push(Some(Slot { kind, comments: copy_ids(comments) }));
            } else {
                slots.push(None);
            }
            t = t + 1;
        }
        Schedule { slots }
    }

    /// Overlays `other` on this schedule minute by minute: where both select
    /// a minute the stronger state wins and comments are merged.
    pub fn addition(&self, other: &Schedule) -> (r: Schedule)
        requires
            self@.len() == MINUTES_PER_DAY,
            other@.len() == MINUTES_PER_DAY,
        ensures
            r@.len() == MINUTES_PER_DAY,
            forall|t: int| 0 <= t < MINUTES_PER_DAY ==> (#[trigger] r@[t]) == add_slot(self@[t], other@[t]),
    {
        let mut slots: Vec<Option<Slot>> = Vec::new();
        let mut t: usize = 0;
        while t < 1440
            invariant
                t <= MINUTES_PER_DAY,
                self.slots@.len() == MINUTES_PER_DAY,
                other.slots@.len() == MINUTES_PER_DAY,
                slots@.len() == t,
                forall|u: int|
                    0 <= u < t ==> slot_view(#[trigger] slots@[u]) == add_slot(
                        slot_view(self.slots@[u]),
                        slot_view(other.slots@[u]),
                    ),
            decreases MINUTES_PER_DAY - t,
        {
            slots.push(add_slots(&self.slots[t], &other.slots[t]));
            t = t + 1;
        }
        Schedule { slots }
    }

    /// The schedule as consecutive ranges from 00:00 to 24:00, one for each
    /// maximal run of minutes with the same state; minutes that no rule
    /// selects count as closed without comment.
    pub fn filled(&self) -> (r: Vec<TimeRange>)
        requires
            self@.len() == MINUTES_PER_DAY,
        ensures
            is_filling_of(r@, self@),
    {
        let first = fill(&self.slots[0]);
        let mut cur_kind = first.0;
        let mut cur_comments = first.1;
        let mut cur_start: u64 = 0;
        let mut out: Vec<TimeRange> = Vec::new();
        let mut t: u64 = 1;
        proof {
            reveal(fills_until);
        }
        while t < MINUTES_PER_DAY
            invariant
                1 <= t <= MINUTES_PER_DAY,
                self.slots@.len() == MINUTES_PER_DAY,
                cur_start < t,
                forall|u: int| cur_start <= u < t ==> fill_slot(#[trigger] self@[u]) == (cur_kind, cur_comments@),
                fills_until(out@, self@, cur_start as int),
                out@.len() > 0 ==> state_of(out@[out@.len() - 1]) != (cur_kind, cur_comments@),
            decreases MINUTES_PER_DAY - t,
        {
            let next = fill(&self.slots[t as usize]);
            if !(next.0 == cur_kind && same_ids(&next.1, &cur_comments)) {
                let tr = TimeRange { range: Range { start: cur_start, end: t }, kind: cur_kind, comments: cur_comments };
                proof {
                    lemma_push_run(out@, self@, cur_start as int, tr);
                }
                out.push(tr);
                cur_start = t;
                cur_kind = next.0;
                cur_comments = next.1;
            }
            t = t + 1;
        }
        let tr = TimeRange { range: Range { start: cur_start, end: MINUTES_PER_DAY }, kind: cur_kind, comments: cur_comments };
        proof {
            lemma_push_run(out@, self@, cur_start as int, tr);
        }
        out.push(tr);
        out
    }
}

fn fill(s: &Option<Slot>) -> (r: (RuleKind, Vec<u32>))
    ensures
        (r.0, r.1@) == fill_slot(slot_view(*s)),
{
    match s {
        Some(x) => (x.kind, copy_ids(&x.comments)),
        None => (RuleKind::Closed, Vec::new()),
    }
}

} // verus!
