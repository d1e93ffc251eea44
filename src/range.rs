//! Interval algebra over half-open and inclusive ranges of `u64` values.
use std::cmp::Ordering;
use std::ops::Range;
use vstd::prelude::*;

verus! {

/// A range is valid when its start does not come after its end.
pub open spec fn valid_range(r: Range<u64>) -> bool {
    r.start <= r.end
}

pub open spec fn all_valid(s: Seq<Range<u64>>) -> bool {
    forall|i: int| 0 <= i < s.len() ==> valid_range(#[trigger] s[i])
}

/// Point `p` of the half-step grid (`p` stands for the value `p / 2`) lies in
/// the closed hull of `r`.
pub open spec fn hull_covers(r: Range<u64>, p: int) -> bool {
    2 * r.start <= p && p <= 2 * r.end
}

/// Some range of `s` has `p` in its closed hull. Two ranges that touch or
/// overlap cover a connected run of grid points; ranges with a gap between
/// them leave at least one grid point uncovered.
#[verifier::opaque]
pub open spec fn covers(s: Seq<Range<u64>>, p: int) -> bool {
    exists|r: Range<u64>| #[trigger] s.contains(r) && hull_covers(r, p)
}

/// Valid, sorted ranges separated by strict gaps: the merged form.
pub open spec fn normalized(s: Seq<Range<u64>>) -> bool {
    &&& all_valid(s)
    &&& forall|i: int| 0 <= i < s.len() - 1 ==> (#[trigger] s[i]).end < s[i + 1].start
}

/// `out` is the union of `input`: merged form, covering the same points.
pub open spec fn is_union_of(out: Seq<Range<u64>>, input: Seq<Range<u64>>) -> bool {
    &&& normalized(out)
    &&& forall|p: int| covers(out, p) == covers(input, p)
}

pub open spec fn sorted_by_start(s: Seq<Range<u64>>) -> bool {
    forall|i: int, j: int| 0 <= i < j < s.len() ==> (#[trigger] s[i]).start <= (#[trigger] s[j]).start
}

pub open spec fn spec_max(a: u64, b: u64) -> u64 {
    if a >= b { a } else { b }
}

pub open spec fn spec_min(a: u64, b: u64) -> u64 {
    if a <= b { a } else { b }
}

/// The intersection of two half-open ranges, or `None` when it is empty.
pub open spec fn spec_intersection(a: Range<u64>, b: Range<u64>) -> Option<Range<u64>> {
    let start = spec_max(a.start, b.start);
    let end = spec_min(a.end, b.end);
    if start < end {
        Some(Range { start, end })
    } else {
        None
    }
}

/// Containment in an inclusive range that wraps past the maximum of the domain
/// when `start > end`.
pub open spec fn spec_wrapping_contains(start: u64, end: u64, elt: u64) -> bool {
    if start <= end {
        start <= elt && elt <= end
    } else {
        start <= elt || elt <= end
    }
}

pub(crate) proof fn lemma_covers_push(s: Seq<Range<u64>>, x: Range<u64>, p: int)
    ensures
        covers(s.push(x), p) == (covers(s, p) || hull_covers(x, p)),
{
    reveal(covers);
    if covers(s, p) {
        let r = choose|r: Range<u64>| #[trigger] s.contains(r) && hull_covers(r, p);
        let i = choose|i: int| 0 <= i < s.len() && s[i] == r;
        assert(s.push(x)[i] == r);
        assert(s.push(x).contains(r));
    }
    if hull_covers(x, p) {
        assert(s.push(x)[s.len() as int] == x);
        assert(s.push(x).contains(x));
    }
    if covers(s.push(x), p) {
        let r = choose|r: Range<u64>| #[trigger] s.push(x).contains(r) && hull_covers(r, p);
        let i = choose|i: int| 0 <= i < s.push(x).len() && s.push(x)[i] == r;
        if i < s.len() {
            assert(s[i] == r);
            assert(s.contains(r));
        }
    }
}

proof fn lemma_covers_same_members(a: Seq<Range<u64>>, b: Seq<Range<u64>>, p: int)
    requires
        forall|r: Range<u64>| a.contains(r) ==> b.contains(r),
        forall|r: Range<u64>| b.contains(r) ==> a.contains(r),
    ensures
        covers(a, p) == covers(b, p),
{
    reveal(covers);
    if covers(a, p) {
        let r = choose|r: Range<u64>| #[trigger] a.contains(r) && hull_covers(r, p);
        assert(b.contains(r));
    }
    if covers(b, p) {
        let r = choose|r: Range<u64>| #[trigger] b.contains(r) && hull_covers(r, p);
        assert(a.contains(r));
    }
}

/// Intersection lifted to possibly empty operands.
pub open spec fn intersect_opt(a: Option<Range<u64>>, b: Option<Range<u64>>) -> Option<Range<u64>> {
    match (a, b) {
        (Some(x), Some(y)) => spec_intersection(x, y),
        _ => None,
    }
}

proof fn lemma_gap(x: Seq<Range<u64>>, i: int, j: int)
    requires
        normalized(x),
        0 <= i < j < x.len(),
    ensures
        x[i].end < x[j].start,
    decreases j - i,
{
    if j > i + 1 {
        lemma_gap(x, i, j - 1);
        assert(valid_range(x[j - 1]));
        assert(x[j - 1].end < x[j].start);
    } else {
        assert(x[i].end < x[i + 1].start);
    }
}

proof fn lemma_first_start_least(x: Seq<Range<u64>>, p: int)
    requires
        normalized(x),
        covers(x, p),
    ensures
        x.len() > 0,
        2 * x[0].start <= p,
{
    reveal(covers);
    let r = choose|r: Range<u64>| #[trigger] x.contains(r) && hull_covers(r, p);
    let k = choose|k: int| 0 <= k < x.len() && x[k] == r;
    if k > 0 {
        lemma_gap(x, 0, k);
        assert(valid_range(x[0]));
    }
}

proof fn lemma_covers_first(x: Seq<Range<u64>>, p: int)
    requires
        normalized(x),
        x.len() > 0,
    ensures
        covers(x, p) == (hull_covers(x[0], p) || covers(x.drop_first(), p)),
        p <= 2 * x[0].end ==> !covers(x.drop_first(), p),
        p == 2 * x[0].end + 1 ==> !covers(x, p),
{
    reveal(covers);
    let t = x.drop_first();
    assert(x.contains(x[0]));
    if covers(t, p) {
        let r = choose|r: Range<u64>| #[trigger] t.contains(r) && hull_covers(r, p);
        let k = choose|k: int| 0 <= k < t.len() && t[k] == r;
        assert(x[k + 1] == r);
        assert(x.contains(r));
        lemma_gap(x, 0, k + 1);
    }
    if covers(x, p) && !hull_covers(x[0], p) {
        let r = choose|r: Range<u64>| #[trigger] x.contains(r) && hull_covers(r, p);
        let k = choose|k: int| 0 <= k < x.len() && x[k] == r;
        assert(k != 0);
        assert(t[k - 1] == r);
        assert(t.contains(r));
    }
    if p == 2 * x[0].end + 1 && covers(x, p) {
        let r = choose|r: Range<u64>| #[trigger] x.contains(r) && hull_covers(r, p);
        let k = choose|k: int| 0 <= k < x.len() && x[k] == r;
        if k > 0 {
            lemma_gap(x, 0, k);
        }
    }
}

proof fn lemma_drop_first_normalized(x: Seq<Range<u64>>)
    requires
        normalized(x),
        x.len() > 0,
    ensures
        normalized(x.drop_first()),
{
    let tx = x.drop_first();
    assert forall|i: int| 0 <= i < tx.len() - 1 implies (#[trigger] tx[i]).end < tx[i + 1].start by {
        assert(x[i + 1].end < x[i + 2].start);
    }
    assert forall|i: int| 0 <= i < tx.len() implies valid_range(#[trigger] tx[i]) by {
        assert(valid_range(x[i + 1]));
    }
}

proof fn lemma_heads_equal(x: Seq<Range<u64>>, y: Seq<Range<u64>>)
    requires
        normalized(x),
        normalized(y),
        forall|p: int| covers(x, p) == covers(y, p),
        x.len() > 0 || y.len() > 0,
    ensures
        x.len() > 0,
        y.len() > 0,
        x[0] == y[0],
{
    reveal(covers);
    if x.len() > 0 {
        assert(x.contains(x[0]) && hull_covers(x[0], 2 * x[0].start));
        lemma_first_start_least(y, 2 * x[0].start);
    } else {
        assert(y.contains(y[0]) && hull_covers(y[0], 2 * y[0].start));
        lemma_first_start_least(x, 2 * y[0].start);
    }
    assert(valid_range(x[0]) && valid_range(y[0]));
    assert(x.contains(x[0]) && hull_covers(x[0], 2 * x[0].start));
    assert(y.contains(y[0]) && hull_covers(y[0], 2 * y[0].start));
    lemma_first_start_least(y, 2 * x[0].start);
    lemma_first_start_least(x, 2 * y[0].start);
    if x[0].end < y[0].end {
        lemma_covers_first(x, 2 * x[0].end + 1);
        assert(y.contains(y[0]) && hull_covers(y[0], 2 * x[0].end + 1));
    }
    if y[0].end < x[0].end {
        lemma_covers_first(y, 2 * y[0].end + 1);
        assert(x.contains(x[0]) && hull_covers(x[0], 2 * y[0].end + 1));
    }
}

proof fn lemma_tails_cover(x: Seq<Range<u64>>, y: Seq<Range<u64>>)
    requires
        normalized(x),
        normalized(y),
        forall|p: int| covers(x, p) == covers(y, p),
        x.len() > 0,
        y.len() > 0,
        x[0] == y[0],
    ensures
        forall|p: int| covers(x.drop_first(), p) == covers(y.drop_first(), p),
{
    assert forall|p: int| covers(x.drop_first(), p) == covers(y.drop_first(), p) by {
        lemma_covers_first(x, p);
        lemma_covers_first(y, p);
    }
}

/// Two merged forms that cover the same points are the same sequence.
#[verifier::rlimit(100)]
proof fn lemma_normalized_unique(x: Seq<Range<u64>>, y: Seq<Range<u64>>)
    requires
        normalized(x),
        normalized(y),
        forall|p: int| covers(x, p) == covers(y, p),
    ensures
        x == y,
    decreases x.len() + y.len(),
{
    if x.len() == 0 && y.len() == 0 {
        assert(x =~= y);
    } else {
        lemma_heads_equal(x, y);
        let tx = x.drop_first();
        let ty = y.drop_first();
        lemma_tails_cover(x, y);
        lemma_drop_first_normalized(x);
        lemma_drop_first_normalized(y);
        lemma_normalized_unique(tx, ty);
        assert(x.len() == y.len());
        assert forall|i: int| 0 <= i < x.len() implies x[i] == y[i] by {
            if i > 0 {
                assert(x[i] == tx[i - 1]);
                assert(y[i] == ty[i - 1]);
            }
        }
        assert(x =~= y);
    }
}

/// Taking the union twice gives the same ranges as taking it once.
pub proof fn lemma_union_idempotent(input: Seq<Range<u64>>, once: Seq<Range<u64>>, twice: Seq<Range<u64>>)
    requires
        is_union_of(once, input),
        is_union_of(twice, once),
    ensures
        twice == once,
{
    lemma_normalized_unique(twice, once);
}

/// Intersection does not depend on the order of its operands.
pub proof fn lemma_intersection_commutative(a: Range<u64>, b: Range<u64>)
    ensures
        spec_intersection(a, b) == spec_intersection(b, a),
{
}

/// Intersecting three ranges gives the same result whichever pair goes first.
pub proof fn lemma_intersection_associative(a: Range<u64>, b: Range<u64>, c: Range<u64>)
    ensures
        intersect_opt(spec_intersection(a, b), Some(c)) == intersect_opt(Some(a), spec_intersection(b, c)),
{
}

/// A wrapping range accepts what lies at or after its start and what lies at
/// or before its end, and rejects what lies strictly between its end and its
/// start.
pub proof fn lemma_wrapping_contains(start: u64, end: u64, elt: u64)
    requires
        start > end,
    ensures
        elt >= start ==> spec_wrapping_contains(start, end, elt),
        elt <= end ==> spec_wrapping_contains(start, end, elt),
        end < elt < start ==> !spec_wrapping_contains(start, end, elt),
{
}

/// Three-way comparison of `elt` against the inclusive range `start..=end`.
pub fn compare_inclusive(start: u64, end: u64, elt: u64) -> (r: Ordering)
    requires
        start <= end,
    ensures
        r == Ordering::Less <==> elt < start,
        r == Ordering::Greater <==> elt > end,
        r == Ordering::Equal <==> start <= elt <= end,
{
    if elt < start {
        Ordering::Less
    } else if elt > end {
        Ordering::Greater
    } else {
        Ordering::Equal
    }
}

/// Three-way comparison of `elt` against the half-open range `range`.
pub fn compare(range: &Range<u64>, elt: u64) -> (r: Ordering)
    requires
        range.start <= range.end,
    ensures
        r == Ordering::Less <==> elt < range.start,
        r == Ordering::Greater <==> elt >= range.end,
        r == Ordering::Equal <==> range.start <= elt < range.end,
{
    if elt < range.start {
        Ordering::Less
    } else if elt >= range.end {
        Ordering::Greater
    } else {
        Ordering::Equal
    }
}

/// Containment in the inclusive range `start..=end`, which wraps around the
/// domain when `start > end`.
pub fn wrapping_contains(start: u64, end: u64, elt: u64) -> (r: bool)
    ensures
        r == spec_wrapping_contains(start, end, elt),
{
    if start <= end {
        start <= elt && elt <= end
    } else {
        start <= elt || elt <= end
    }
}

/// Intersection of two half-open ranges; `None` when it holds no value.
pub fn range_intersection(range_1: Range<u64>, range_2: Range<u64>) -> (r: Option<Range<u64>>)
    ensures
        r == spec_intersection(range_1, range_2),
{
    let start = if range_1.start >= range_2.start { range_1.start } else { range_2.start };
    let end = if range_1.end <= range_2.end { range_1.end } else { range_2.end };
    if start < end {
        Some(Range { start, end })
    } else {
        None
    }
}

proof fn lemma_contains_concat(a: Seq<Range<u64>>, b: Seq<Range<u64>>, x: Range<u64>)
    ensures
        (a + b).contains(x) <==> a.contains(x) || b.contains(x),
{
    if (a + b).contains(x) {
        let k = choose|k: int| 0 <= k < (a + b).len() && (a + b)[k] == x;
        if k < a.len() {
            assert(a[k] == x);
        } else {
            assert(b[k - a.len()] == x);
        }
    }
    if a.contains(x) {
        let k = choose|k: int| 0 <= k < a.len() && a[k] == x;
        assert((a + b)[k] == x);
    }
    if b.contains(x) {
        let k = choose|k: int| 0 <= k < b.len() && b[k] == x;
        assert((a + b)[a.len() + k] == x);
    }
}

proof fn lemma_contains_push(s: Seq<Range<u64>>, y: Range<u64>, x: Range<u64>)
    ensures
        s.push(y).contains(x) <==> s.contains(x) || x == y,
{
    assert(s.push(y) =~= s + seq![y]);
    lemma_contains_concat(s, seq![y], x);
    assert(seq![y].contains(x) <==> x == y) by {
        if x == y {
            assert(seq![y][0] == x);
        }
    }
}

/// Merges two lists sorted by start into one sorted list of the same ranges.
fn merge_by_start(a: Vec<Range<u64>>, b: Vec<Range<u64>>) -> (r: Vec<Range<u64>>)
    requires
        sorted_by_start(a@),
        sorted_by_start(b@),
    ensures
        sorted_by_start(r@),
        forall|x: Range<u64>| #[trigger] r@.contains(x) <==> a@.contains(x) || b@.contains(x),
{
    let mut out: Vec<Range<u64>> = Vec::new();
    let mut i: usize = 0;
    let mut j: usize = 0;
    while i < a.len() || j < b.len()
        invariant
            i <= a.len(),
            j <= b.len(),
            sorted_by_start(a@),
            sorted_by_start(b@),
            sorted_by_start(out@),
            forall|k: int|
                0 <= k < out@.len() ==> (i < a.len() ==> (#[trigger] out@[k]).start <= a@[i as int].start) && (j
                    < b.len() ==> out@[k].start <= b@[j as int].start),
            forall|x: Range<u64>|
                #[trigger] out@.contains(x) <==> a@.subrange(0, i as int).contains(x) || b@.subrange(
                    0,
                    j as int,
                ).contains(x),
        decreases a.len() - i + b.len() - j,
    {
        let ghost old_out = out@;
        if j >= b.len() || (i < a.len() && a[i].start <= b[j].start) {
            let x = Range { start: a[i].start, end: a[i].end };
            proof {
                assert(x == a@[i as int]);
                assert(a@.subrange(0, i + 1) =~= a@.subrange(0, i as int).push(x));
                assert forall|y: Range<u64>| #[trigger] old_out.push(x).contains(y) <==> a@.subrange(0, i + 1).contains(y)
                    || b@.subrange(0, j as int).contains(y) by {
                    lemma_contains_push(old_out, x, y);
                    lemma_contains_push(a@.subrange(0, i as int), x, y);
                }
            }
            out.push(x);
            i = i + 1;
        } else {
            let x = Range { start: b[j].start, end: b[j].end };
            proof {
                assert(x == b@[j as int]);
                assert(b@.subrange(0, j + 1) =~= b@.subrange(0, j as int).push(x));
                assert forall|y: Range<u64>| #[trigger] old_out.push(x).contains(y) <==> a@.subrange(0, i as int).contains(
                    y,
                ) || b@.subrange(0, j + 1).contains(y) by {
                    lemma_contains_push(old_out, x, y);
                    lemma_contains_push(b@.subrange(0, j as int), x, y);
                }
            }
            out.push(x);
            j = j + 1;
        }
        proof {
            assert forall|p: int, q: int| 0 <= p < q < out@.len() implies (#[trigger] out@[p]).start <= (
            #[trigger] out@[q]).start by {
                if q < old_out.len() {
                    assert(old_out[p] == out@[p] && old_out[q] == out@[q]);
                } else {
                    assert(old_out[p] == out@[p]);
                }
            }
            assert forall|k: int| 0 <= k < out@.len() implies (i < a.len() ==> (#[trigger] out@[k]).start
                <= a@[i as int].start) && (j < b.len() ==> out@[k].start <= b@[j as int].start) by {
                if k < old_out.len() {
                    assert(old_out[k] == out@[k]);
                }
                if i > 0 && i < a.len() {
                    assert(a@[i - 1].start <= a@[i as int].start);
                }
                if j > 0 && j < b.len() {
                    assert(b@[j - 1].start <= b@[j as int].start);
                }
            }
        }
    }
    proof {
        assert(a@.subrange(0, a.len() as int) =~= a@);
        assert(b@.subrange(0, b.len() as int) =~= b@);
    }
    out
}

/// Sorts ranges by their start (merge sort); the result holds the same
/// ranges as the input.
fn sort_by_start(ranges: Vec<Range<u64>>) -> (r: Vec<Range<u64>>)
    ensures
        sorted_by_start(r@),
        forall|x: Range<u64>| ranges@.contains(x) ==> r@.contains(x),
        forall|x: Range<u64>| r@.contains(x) ==> ranges@.contains(x),
    decreases ranges.len(),
{
    if ranges.len() <= 1 {
        return ranges;
    }
    let ghost all = ranges@;
    let mut left = ranges;
    let mid = left.len() / 2;
    let right = left.split_off(mid);
    proof {
        assert(all =~= left@ + right@);
    }
    let sorted_left = sort_by_start(left);
    let sorted_right = sort_by_start(right);
    let merged = merge_by_start(sorted_left, sorted_right);
    proof {
        assert forall|x: Range<u64>| all.contains(x) <==> merged@.contains(x) by {
            lemma_contains_concat(left@, right@, x);
        }
    }
    merged
}

/// Union of ranges: sorts them by start, then merges every range that
/// overlaps or touches the current merged range into it.
pub fn time_ranges_union(ranges: Vec<Range<u64>>) -> (r: Vec<Range<u64>>)
    requires
        all_valid(ranges@),
    ensures
        is_union_of(r@, ranges@),
        r@.len() == 0 <==> ranges@.len() == 0,
{
    let sorted = sort_by_start(ranges);
    assert forall|p: int| covers(sorted@, p) == covers(ranges@, p) by {
        lemma_covers_same_members(sorted@, ranges@, p);
    }
    let n = sorted.len();
    let mut out: Vec<Range<u64>> = Vec::new();
    if n == 0 {
        reveal(covers);
        assert(ranges@.len() == 0) by {
            if ranges@.len() > 0 {
                assert(sorted@.contains(ranges@[0]));
            }
        }
        return out;
    }
    assert(all_valid(sorted@)) by {
        assert forall|i: int| 0 <= i < sorted@.len() implies valid_range(#[trigger] sorted@[i]) by {
            assert(sorted@.contains(sorted@[i]));
        }
    }
    let mut cur = Range { start: sorted[0].start, end: sorted[0].end };
    proof {
        assert forall|p: int| covers(out@.push(cur), p) == covers(sorted@.subrange(0, 1), p) by {
            assert(out@.push(cur) =~= sorted@.subrange(0, 1));
        }
    }
    let mut i: usize = 1;
    while i < n
        invariant
            n == sorted.len(),
            1 <= i <= n,
            all_valid(sorted@),
            sorted_by_start(sorted@),
            normalized(out@.push(cur)),
            forall|p: int| covers(out@.push(cur), p) == covers(sorted@.subrange(0, i as int), p),
            forall|j: int| i <= j < n ==> cur.start <= (#[trigger] sorted@[j]).start,
        decreases n - i,
    {
        let item = Range { start: sorted[i].start, end: sorted[i].end };
        let ghost prev = out@.push(cur);
        assert(sorted@.subrange(0, i + 1) =~= sorted@.subrange(0, i as int).push(item));
        if cur.end >= item.start {
            let new_end = if item.end > cur.end { item.end } else { cur.end };
            let new_cur = Range { start: cur.start, end: new_end };
            proof {
                assert forall|p: int| covers(out@.push(new_cur), p) == covers(sorted@.subrange(0, i + 1), p) by {
                    lemma_covers_push(out@, new_cur, p);
                    lemma_covers_push(out@, cur, p);
                    lemma_covers_push(sorted@.subrange(0, i as int), item, p);
                }
                let q = out@.push(new_cur);
                assert forall|j: int| 0 <= j < q.len() - 1 implies (#[trigger] q[j]).end < q[j + 1].start by {
                    assert(prev[j] == q[j]);
                    if j + 1 < out@.len() {
                        assert(prev[j + 1] == q[j + 1]);
                    } else {
                        assert(prev[j + 1] == cur);
                    }
                }
                assert forall|j: int| 0 <= j < q.len() implies valid_range(#[trigger] q[j]) by {
                    if j < out@.len() {
                        assert(prev[j] == q[j]);
                    }
                }
            }
            cur = new_cur;
        } else {
            proof {
                let q = out@.push(cur).push(item);
                assert forall|p: int| covers(q, p) == covers(sorted@.subrange(0, i + 1), p) by {
                    lemma_covers_push(out@.push(cur), item, p);
                    lemma_covers_push(sorted@.subrange(0, i as int), item, p);
                }
                assert forall|j: int| 0 <= j < q.len() - 1 implies (#[trigger] q[j]).end < q[j + 1].start by {
                    if j + 1 < prev.len() {
                        assert(prev[j] == q[j]);
                        assert(prev[j + 1] == q[j + 1]);
                    }
                }
                assert forall|j: int| 0 <= j < q.len() implies valid_range(#[trigger] q[j]) by {
                    if j < prev.len() {
                        assert(prev[j] == q[j]);
                    } else {
                        assert(sorted@[i as int] == item);
                    }
                }
            }
            out.push(cur);
            cur = item;
        }
        i = i + 1;
    }
    out.push(cur);
    proof {
        assert(sorted@.subrange(0, n as int) =~= sorted@);
        assert(sorted@.contains(sorted@[0]));
    }
    out
}

} // verus!
