//! Whether the drives of a place cover all of its bits: the required range
//! is cut into segments at every claim boundary, and each segment must be
//! covered by the guards of the claims that contain it.
use crate::guard::{EirGuard, EirGuardFrame};
use crate::guard_coverage::{GuardCoverage, frames_cover, guard_paths, residuals};
use crate::range::DriverStaticRange;
use vstd::prelude::*;

verus! {

// ---------------------------------------------------------------------------
// Sorted boundary points
// ---------------------------------------------------------------------------

/// Each value is smaller than the next.
pub open spec fn strictly_increasing(s: Seq<u64>) -> bool {
    forall|i: int, j: int| 0 <= i < j < s.len() ==> s[i] < s[j]
}

/// The two lists hold the same values.
pub open spec fn same_values(a: Seq<u64>, b: Seq<u64>) -> bool {
    forall|x: u64| a.contains(x) == b.contains(x)
}

/// The values of a list, each once, in increasing order.
pub open spec fn sorted_points(s: Seq<u64>) -> Seq<u64> {
    choose|p: Seq<u64>| strictly_increasing(p) && same_values(p, s)
}

proof fn lemma_sorted_unique(a: Seq<u64>, b: Seq<u64>)
    requires
        strictly_increasing(a),
        strictly_increasing(b),
        same_values(a, b),
    ensures
        a == b,
    decreases a.len(),
{
    if a.len() == 0 {
        if b.len() > 0 {
            assert(b.contains(b[0]));
        }
        assert(a =~= b);
    } else {
        assert(a.contains(a[0]));
        assert(b.contains(a[0]));
        assert(b.len() > 0);
        assert(b.contains(b[0]));
        assert(a.contains(b[0]));
        let i = choose|i: int| 0 <= i < a.len() && a[i] == b[0];
        let j = choose|j: int| 0 <= j < b.len() && b[j] == a[0];
        assert(a[0] <= a[i]) by {
            if i > 0 {
                assert(a[0] < a[i]);
            }
        }
        assert(b[0] <= b[j]) by {
            if j > 0 {
                assert(b[0] < b[j]);
            }
        }
        assert(a[0] == b[0]);
        let a1 = a.drop_first();
        let b1 = b.drop_first();
        assert forall|x: u64| a1.contains(x) == b1.contains(x) by {
            if a1.contains(x) {
                let k = choose|k: int| 0 <= k < a1.len() && a1[k] == x;
                assert(a[k + 1] == x);
                assert(a.contains(x));
                assert(b.contains(x));
                let m = choose|m: int| 0 <= m < b.len() && b[m] == x;
                assert(a[0] < a[k + 1]);
                assert(m != 0);
                assert(b1[m - 1] == x);
            }
            if b1.contains(x) {
                let k = choose|k: int| 0 <= k < b1.len() && b1[k] == x;
                assert(b[k + 1] == x);
                assert(b.contains(x));
                assert(a.contains(x));
                let m = choose|m: int| 0 <= m < a.len() && a[m] == x;
                assert(b[0] < b[k + 1]);
                assert(m != 0);
                assert(a1[m - 1] == x);
            }
        }
        lemma_sorted_unique(a1, b1);
        assert(a =~= b) by {
            assert forall|k: int| 0 <= k < a.len() implies a[k] == b[k] by {
                if k > 0 {
                    assert(a1[k - 1] == b1[k - 1]);
                }
            }
        }
    }
}

/// The values of a list, each once, in increasing order.
fn sorted_distinct(points: &Vec<u64>) -> (r: Vec<u64>)
    ensures
        r@ == sorted_points(points@),
        strictly_increasing(r@),
{
    let mut out: Vec<u64> = Vec::new();
    let mut i: usize = 0;
    while i < points.len()
        invariant
            i <= points.len(),
            strictly_increasing(out@),
            same_values(out@, points@.take(i as int)),
        decreases points.len() - i,
    {
        let p = points[i];
        let mut j: usize = 0;
        while j < out.len() && out[j] < p
            invariant
                j <= out.len(),
                forall|k: int| 0 <= k < j ==> out@[k] < p,
            decreases out.len() - j,
        {
            j = j + 1;
        }
        let ghost before = out@;
        if j < out.len() && out[j] == p {
        } else {
            out.insert(j, p);
            proof {
                assert forall|a: int, b: int| 0 <= a < b < out@.len() implies out@[a] < out@[b] by {
                    if b < j {
                        assert(out@[a] == before[a] && out@[b] == before[b]);
                    } else if b == j {
                        assert(out@[a] == before[a]);
                    } else if a < j {
                        assert(out@[a] == before[a] && out@[b] == before[b - 1]);
                        assert(before[b - 1] >= p) by {
                            if before[b - 1] < p {
                                assert(before[j as int] <= before[b - 1]) by {
                                    if j < b - 1 {
                                        assert(before[j as int] < before[b - 1]);
                                    }
                                }
                            }
                        }
                    } else if a == j {
                        assert(out@[b] == before[b - 1]);
                        assert(before[j as int] > p);
                        if b - 1 > j {
                            assert(before[j as int] < before[b - 1]);
                        }
                    } else {
                        assert(out@[a] == before[a - 1] && out@[b] == before[b - 1]);
                    }
                }
            }
        }
        proof {
            let t0 = points@.take(i as int);
            let t1 = points@.take(i + 1);
            assert(t1 =~= t0.push(p));
            assert forall|x: u64| out@.contains(x) == t1.contains(x) by {
                if x == p {
                    assert(out@[j as int] == p);
                    assert(t1[i as int] == p);
                } else {
                    if out@.contains(x) {
                        let k = choose|k: int| 0 <= k < out@.len() && out@[k] == x;
                        if out@ != before {
                            if k < j {
                                assert(before[k] == x);
                            } else {
                                assert(before[k - 1] == x);
                            }
                        }
                        assert(before.contains(x));
                        assert(t0.contains(x));
                        let m = choose|m: int| 0 <= m < t0.len() && t0[m] == x;
                        assert(t1[m] == x);
                    }
                    if t1.contains(x) {
                        let m = choose|m: int| 0 <= m < t1.len() && t1[m] == x;
                        assert(t0[m] == x);
                        assert(t0.contains(x));
                        assert(before.contains(x));
                        let k = choose|k: int| 0 <= k < before.len() && before[k] == x;
                        if out@ != before {
                            if k < j {
                                assert(out@[k] == x);
                            } else {
                                assert(out@[k + 1] == x);
                            }
                        }
                    }
                }
            }
        }
        i = i + 1;
    }
    proof {
        assert(points@.take(points.len() as int) =~= points@);
        lemma_sorted_unique(out@, sorted_points(points@));
    }
    out
}

// ---------------------------------------------------------------------------
// Segments between boundary points
// ---------------------------------------------------------------------------

/// The ranges between consecutive points, from each point up to just
/// before the next, that lie within `low..=high`, in order.
pub open spec fn window_segments(pts: Seq<u64>, low: u64, high: u64) -> Seq<(u64, u64)>
    decreases pts.len(),
{
    if pts.len() < 2 {
        Seq::empty()
    } else {
        let rest = window_segments(pts.drop_last(), low, high);
        let start = pts[pts.len() - 2];
        let end = pts[pts.len() - 1];
        if start < end && low <= start && end - 1 <= high {
            rest.push((start, (end - 1) as u64))
        } else {
            rest
        }
    }
}

/// The ends of each of a list of ranges.
pub open spec fn range_ends(v: Seq<DriverStaticRange>) -> Seq<(u64, u64)> {
    v.map_values(|r: DriverStaticRange| (r.low_spec(), r.high_spec()))
}

/// Every range of a list has ordered ends.
pub open spec fn all_ranges_wf(v: Seq<DriverStaticRange>) -> bool {
    forall|i: int| 0 <= i < v.len() ==> #[trigger] v[i].wf()
}

/// The segments between sorted points that lie within the required range.
fn segments_between(pts: &Vec<u64>, required: DriverStaticRange) -> (r: Vec<DriverStaticRange>)
    ensures
        range_ends(r@) == window_segments(pts@, required.low_spec(), required.high_spec()),
        all_ranges_wf(r@),
{
    let mut segments: Vec<DriverStaticRange> = Vec::new();
    if pts.len() < 2 {
        proof {
            assert(range_ends(segments@) =~= Seq::<(u64, u64)>::empty());
        }
        return segments;
    }
    let mut i: usize = 0;
    proof {
        assert(range_ends(segments@) =~= Seq::<(u64, u64)>::empty());
        assert(pts@.take(1).len() < 2);
    }
    while i + 1 < pts.len()
        invariant
            i + 1 <= pts.len(),
            range_ends(segments@) == window_segments(
                pts@.take(i + 1),
                required.low_spec(),
                required.high_spec(),
            ),
            all_ranges_wf(segments@),
        decreases pts.len() - i,
    {
        let start = pts[i];
        let end = pts[i + 1];
        proof {
            assert(pts@.take(i + 2).drop_last() =~= pts@.take(i + 1));
            assert(pts@.take(i + 2)[i as int] == start);
            assert(pts@.take(i + 2)[i + 1] == end);
        }
        if start < end {
            let high = end - 1;
            let segment = DriverStaticRange::new(start, high);
            if required.contains_range(&segment) {
                let ghost before = segments@;
                segments.push(segment);
                proof {
                    assert(range_ends(segments@) =~= range_ends(before).push((start, high)));
                }
            }
        }
        i = i + 1;
    }
    proof {
        assert(pts@.take(pts.len() as int) =~= pts@);
    }
    segments
}

/// `x` placed into an increasing list, unless it is there already.
pub open spec fn insert_sorted(p: Seq<u64>, x: u64) -> Seq<u64>
    decreases p.len(),
{
    if p.len() == 0 {
        seq![x]
    } else if x < p[0] {
        seq![x] + p
    } else if x == p[0] {
        p
    } else {
        seq![p[0]] + insert_sorted(p.drop_first(), x)
    }
}

proof fn lemma_insert_sorted(p: Seq<u64>, x: u64)
    requires
        strictly_increasing(p),
    ensures
        strictly_increasing(insert_sorted(p, x)),
        forall|y: u64| #[trigger] insert_sorted(p, x).contains(y) == (p.contains(y) || y == x),
        insert_sorted(p, x).len() > 0 && insert_sorted(p, x)[0] == if p.len() > 0 && p[0] < x {
            p[0]
        } else {
            x
        },
    decreases p.len(),
{
    let r = insert_sorted(p, x);
    if p.len() == 0 {
        assert forall|y: u64| r.contains(y) == (p.contains(y) || y == x) by {
            if r.contains(y) {
                assert(r[0] == y);
            }
            if y == x {
                assert(r[0] == x);
            }
        }
    } else if x < p[0] {
        assert forall|i: int, j: int| 0 <= i < j < r.len() implies r[i] < r[j] by {
            if i > 0 {
                assert(r[i] == p[i - 1] && r[j] == p[j - 1]);
            } else {
                assert(r[j] == p[j - 1]);
                if j - 1 > 0 {
                    assert(p[0] < p[j - 1]);
                }
            }
        }
        assert forall|y: u64| r.contains(y) == (p.contains(y) || y == x) by {
            if r.contains(y) {
                let k = choose|k: int| 0 <= k < r.len() && r[k] == y;
                if k > 0 {
                    assert(p[k - 1] == y);
                }
            }
            if p.contains(y) {
                let k = choose|k: int| 0 <= k < p.len() && p[k] == y;
                assert(r[k + 1] == y);
            }
            if y == x {
                assert(r[0] == y);
            }
        }
    } else if x == p[0] {
        assert forall|y: u64| r.contains(y) == (p.contains(y) || y == x) by {
            if y == x {
                assert(p[0] == y);
            }
        }
    } else {
        let t = p.drop_first();
        lemma_insert_sorted(t, x);
        let rt = insert_sorted(t, x);
        assert(r == seq![p[0]] + rt);
        assert forall|i: int, j: int| 0 <= i < j < r.len() implies r[i] < r[j] by {
            if i > 0 {
                assert(r[i] == rt[i - 1] && r[j] == rt[j - 1]);
            } else {
                assert(r[j] == rt[j - 1]);
                assert(rt.contains(rt[j - 1]));
                if t.contains(rt[j - 1]) {
                    let k = choose|k: int| 0 <= k < t.len() && t[k] == rt[j - 1];
                    assert(p[k + 1] == t[k]);
                    assert(p[0] < p[k + 1]);
                }
            }
        }
        assert forall|y: u64| r.contains(y) == (p.contains(y) || y == x) by {
            if r.contains(y) {
                let k = choose|k: int| 0 <= k < r.len() && r[k] == y;
                if k > 0 {
                    assert(rt[k - 1] == y);
                    assert(rt.contains(y));
                    if t.contains(y) {
                        let m = choose|m: int| 0 <= m < t.len() && t[m] == y;
                        assert(p[m + 1] == y);
                    }
                } else {
                    assert(p[0] == y);
                }
            }
            if p.contains(y) {
                let k = choose|k: int| 0 <= k < p.len() && p[k] == y;
                if k > 0 {
                    assert(t[k - 1] == y);
                    assert(t.contains(y));
                    assert(rt.contains(y));
                    let m = choose|m: int| 0 <= m < rt.len() && rt[m] == y;
                    assert(r[m + 1] == y);
                } else {
                    assert(r[0] == y);
                }
            }
            if y == x {
                assert(insert_sorted(t, x).contains(x));
                assert(rt.contains(x));
                let m = choose|m: int| 0 <= m < rt.len() && rt[m] == x;
                assert(r[m + 1] == x);
            }
        }
    }
}

proof fn lemma_sorted_points(s: Seq<u64>)
    ensures
        strictly_increasing(sorted_points(s)),
        same_values(sorted_points(s), s),
{
    let p = sorted_witness(s);
    assert(strictly_increasing(p) && same_values(p, s));
}

proof fn sorted_witness(s: Seq<u64>) -> (p: Seq<u64>)
    ensures
        strictly_increasing(p),
        same_values(p, s),
    decreases s.len(),
{
    if s.len() == 0 {
        let p = Seq::<u64>::empty();
        assert forall|x: u64| p.contains(x) == s.contains(x) by {}
        p
    } else {
        let q = sorted_witness(s.drop_last());
        lemma_insert_sorted(q, s.last());
        let p = insert_sorted(q, s.last());
        assert forall|x: u64| p.contains(x) == s.contains(x) by {
            if s.contains(x) {
                let k = choose|k: int| 0 <= k < s.len() && s[k] == x;
                if k < s.len() - 1 {
                    assert(s.drop_last()[k] == x);
                }
            }
            if s.drop_last().contains(x) {
                let k = choose|k: int| 0 <= k < s.drop_last().len() && s.drop_last()[k] == x;
                assert(s[k] == x);
            }
            if x == s.last() {
                assert(s[s.len() - 1] == x);
            }
        }
        p
    }
}

proof fn lemma_windows_shape(pts: Seq<u64>, low: u64, high: u64)
    requires
        strictly_increasing(pts),
    ensures
        forall|k: int|
            0 <= k < window_segments(pts, low, high).len() ==> {
                let w = #[trigger] window_segments(pts, low, high)[k];
                &&& low <= w.0 <= w.1 <= high
                &&& w.1 < pts.last()
            },
        forall|a: int, b: int|
            0 <= a < b < window_segments(pts, low, high).len() ==> #[trigger] window_segments(
                pts,
                low,
                high,
            )[a].1 < #[trigger] window_segments(pts, low, high)[b].0,
    decreases pts.len(),
{
    if pts.len() >= 2 {
        let d = pts.drop_last();
        lemma_windows_shape(d, low, high);
        let ws = window_segments(pts, low, high);
        let wd = window_segments(d, low, high);
        let start = pts[pts.len() - 2];
        assert(d.last() == start);
        assert(start < pts.last());
        assert forall|k: int| 0 <= k < ws.len() implies {
            let w = #[trigger] ws[k];
            &&& low <= w.0 <= w.1 <= high
            &&& w.1 < pts.last()
        } by {
            if k < wd.len() {
                assert(ws[k] == wd[k]);
            }
        }
        assert forall|a: int, b: int| 0 <= a < b < ws.len() implies #[trigger] ws[a].1 < #[trigger] ws[b].0 by {
            if b < wd.len() {
                assert(ws[a] == wd[a] && ws[b] == wd[b]);
            } else {
                assert(ws[a] == wd[a]);
                assert(wd[a].1 < d.last());
            }
        }
    }
}

proof fn lemma_window_member(pts: Seq<u64>, low: u64, high: u64, i: int)
    requires
        0 <= i < pts.len() - 1,
        pts[i] < pts[i + 1],
        low <= pts[i],
        pts[i + 1] - 1 <= high,
    ensures
        window_segments(pts, low, high).contains((pts[i], (pts[i + 1] - 1) as u64)),
    decreases pts.len(),
{
    let ws = window_segments(pts, low, high);
    if i == pts.len() - 2 {
        assert(ws[ws.len() - 1] == (pts[i], (pts[i + 1] - 1) as u64));
    } else {
        let d = pts.drop_last();
        lemma_window_member(d, low, high, i);
        let wd = window_segments(d, low, high);
        let k = choose|k: int| 0 <= k < wd.len() && wd[k] == (pts[i], (pts[i + 1] - 1) as u64);
        assert(ws[k] == wd[k]);
    }
}

proof fn lemma_crossing(pts: Seq<u64>, a: int, j: int, x: u64)
    requires
        0 <= a < j < pts.len(),
        pts[a] <= x < pts[j],
    ensures
        exists|i: int| a <= i < j && pts[i] <= x < #[trigger] pts[i + 1],
    decreases j - a,
{
    if pts[a + 1] > x {
        assert(pts[a] <= x < pts[a + 1]);
    } else {
        lemma_crossing(pts, a + 1, j, x);
    }
}

/// Some segment of the list holds the position.
pub open spec fn in_some_segment(segs: Seq<(u64, u64)>, x: u64) -> bool {
    exists|k: int| 0 <= k < segs.len() && #[trigger] segs[k].0 <= x <= segs[k].1
}

/// The segments tile the required range: where the boundary points include
/// its start and the point after its end, every position of the range lies
/// in a segment, every segment lies in the range, and the segments come in
/// increasing order without sharing a position.
pub proof fn lemma_segments_tile(points: Seq<u64>, low: u64, high: u64)
    requires
        low <= high < u64::MAX,
        points.contains(low),
        points.contains((high + 1) as u64),
    ensures
        forall|x: u64|
            low <= x <= high ==> #[trigger] in_some_segment(
                window_segments(sorted_points(points), low, high),
                x,
            ),
        forall|k: int|
            0 <= k < window_segments(sorted_points(points), low, high).len() ==> low
                <= #[trigger] window_segments(sorted_points(points), low, high)[k].0
                <= window_segments(sorted_points(points), low, high)[k].1 <= high,
        forall|a: int, b: int|
            0 <= a < b < window_segments(sorted_points(points), low, high).len() ==> #[trigger] window_segments(
                sorted_points(points),
                low,
                high,
            )[a].1 < #[trigger] window_segments(sorted_points(points), low, high)[b].0,
{
    let pts = sorted_points(points);
    lemma_sorted_points(points);
    lemma_windows_shape(pts, low, high);
    let ws = window_segments(pts, low, high);
    assert(pts.contains(low));
    assert(pts.contains((high + 1) as u64));
    let a = choose|a: int| 0 <= a < pts.len() && pts[a] == low;
    let j = choose|j: int| 0 <= j < pts.len() && pts[j] == (high + 1) as u64;
    assert forall|x: u64| low <= x <= high implies #[trigger] in_some_segment(ws, x) by {
        if a >= j {
            if a > j {
                assert(pts[j] < pts[a]);
            }
        }
        lemma_crossing(pts, a, j, x);
        let i = choose|i: int| a <= i < j && pts[i] <= x < #[trigger] pts[i + 1];
        if i > a {
            assert(pts[a] < pts[i]);
        }
        if i + 1 < j {
            assert(pts[i + 1] < pts[j]);
        }
        lemma_window_member(pts, low, high, i);
        let k = choose|k: int| 0 <= k < ws.len() && ws[k] == (pts[i], (pts[i + 1] - 1) as u64);
        assert(ws[k].0 <= x <= ws[k].1);
    }
}

// ---------------------------------------------------------------------------
// Boundaries of port and read coverage
// ---------------------------------------------------------------------------

/// The end point after a range that ends at `high`, where it fits.
pub open spec fn end_points(high: u64) -> Seq<u64> {
    if high < u64::MAX {
        seq![(high + 1) as u64]
    } else {
        Seq::empty()
    }
}

/// The points at which coverage of a required range is cut: its start and
/// the point after its end, then the start and the point after the end of
/// each claim.
pub struct CoverageBoundaries {
    pub required: DriverStaticRange,
    pub points: Vec<u64>,
}

impl CoverageBoundaries {
    /// The boundaries of the required range alone.
    pub fn new(required: DriverStaticRange) -> (r: Self)
        ensures
            r.required == required,
            r.points@ == seq![required.low_spec()] + end_points(required.high_spec()),
    {
        let mut points: Vec<u64> = Vec::new();
        points.push(required.low());
        let high = required.high();
        if high < u64::MAX {
            points.push(high + 1);
        }
        proof {
            assert(points@ =~= seq![required.low_spec()] + end_points(required.high_spec()));
        }
        CoverageBoundaries { required, points }
    }

    /// Adds the boundaries of a claimed range.
    pub fn add_claim(&mut self, claim: &CoverageClaim<'_>)
        ensures
            final(self).required == old(self).required,
            final(self).points@ == old(self).points@ + seq![claim.range.low_spec()] + end_points(
                claim.range.high_spec(),
            ),
    {
        let ghost before = self.points@;
        self.points.push(claim.range.low());
        let high = claim.range.high();
        if high < u64::MAX {
            self.points.push(high + 1);
        }
        proof {
            assert(self.points@ =~= before + seq![claim.range.low_spec()] + end_points(
                claim.range.high_spec(),
            ));
        }
    }

    /// The segments between consecutive boundaries that lie within the
    /// required range, in order.
    pub fn into_segments(self) -> (r: Vec<DriverStaticRange>)
        ensures
            range_ends(r@) == window_segments(
                sorted_points(self.points@),
                self.required.low_spec(),
                self.required.high_spec(),
            ),
            all_ranges_wf(r@),
    {
        let pts = sorted_distinct(&self.points);
        segments_between(&pts, self.required)
    }
}

/// The end point after a range that ends at `high`, saturating at the
/// largest position.
pub open spec fn saturating_end(high: u64) -> u64 {
    if high < u64::MAX {
        (high + 1) as u64
    } else {
        u64::MAX
    }
}

/// The points at which coverage of a signal is cut: its start and the
/// point after its end, then the start and the point after the end of each
/// claim, where a point past the largest position stays at it.
pub struct SignalCoverageBoundaries {
    pub required: DriverStaticRange,
    pub points: Vec<u64>,
}

impl SignalCoverageBoundaries {
    /// The boundaries of the required range alone.
    pub fn new(required: DriverStaticRange) -> (r: Self)
        ensures
            r.required == required,
            r.points@ == seq![required.low_spec(), saturating_end(required.high_spec())],
    {
        let mut points: Vec<u64> = Vec::new();
        points.push(required.low());
        points.push(required.high().saturating_add(1));
        proof {
            assert(points@ =~= seq![required.low_spec(), saturating_end(required.high_spec())]);
        }
        SignalCoverageBoundaries { required, points }
    }

    /// Adds the boundaries of a claimed range.
    pub fn add_claim(&mut self, claim: &SignalCoverageClaim<'_>)
        ensures
            final(self).required == old(self).required,
            final(self).points@ == old(self).points@ + seq![
                claim.range.low_spec(),
                saturating_end(claim.range.high_spec()),
            ],
    {
        let ghost before = self.points@;
        self.points.push(claim.range.low());
        self.points.push(claim.range.high().saturating_add(1));
        proof {
            assert(self.points@ =~= before + seq![
                claim.range.low_spec(),
                saturating_end(claim.range.high_spec()),
            ]);
        }
    }

    /// The segments between consecutive boundaries that lie within the
    /// required range, in order.
    pub fn into_segments(self) -> (r: Vec<DriverStaticRange>)
        ensures
            range_ends(r@) == window_segments(
                sorted_points(self.points@),
                self.required.low_spec(),
                self.required.high_spec(),
            ),
            all_ranges_wf(r@),
    {
        let pts = sorted_distinct(&self.points);
        segments_between(&pts, self.required)
    }
}

// ---------------------------------------------------------------------------
// Claims
// ---------------------------------------------------------------------------

/// What a claim stands for: the ends of its range and its guard.
pub type ClaimModel<'a> = (u64, u64, &'a EirGuard);

/// The part of `l..=h` inside `rl..=rh`, if they meet.
pub open spec fn clip_ends(l: u64, h: u64, rl: u64, rh: u64) -> Option<(u64, u64)> {
    let low = if l >= rl {
        l
    } else {
        rl
    };
    let high = if h <= rh {
        h
    } else {
        rh
    };
    if low > high {
        None
    } else {
        Some((low, high))
    }
}

/// The claims clipped to `rl..=rh`, dropping those outside it, in order.
pub open spec fn clipped_claims<'a>(cs: Seq<ClaimModel<'a>>, rl: u64, rh: u64) -> Seq<ClaimModel<'a>>
    decreases cs.len(),
{
    if cs.len() == 0 {
        Seq::empty()
    } else {
        let rest = clipped_claims(cs.drop_last(), rl, rh);
        let c = cs.last();
        match clip_ends(c.0, c.1, rl, rh) {
            Some((l, h)) => rest.push((l, h, c.2)),
            None => rest,
        }
    }
}

/// The boundary points of a list of claims: each start and the point after
/// each end, where it fits.
pub open spec fn claim_points<'a>(cs: Seq<ClaimModel<'a>>) -> Seq<u64>
    decreases cs.len(),
{
    if cs.len() == 0 {
        Seq::empty()
    } else {
        claim_points(cs.drop_last()) + seq![cs.last().0] + end_points(cs.last().1)
    }
}

/// The boundary points of a list of claims, saturating at the largest
/// position.
pub open spec fn signal_claim_points<'a>(cs: Seq<ClaimModel<'a>>) -> Seq<u64>
    decreases cs.len(),
{
    if cs.len() == 0 {
        Seq::empty()
    } else {
        signal_claim_points(cs.drop_last()) + seq![cs.last().0, saturating_end(cs.last().1)]
    }
}

/// The guards of the claims whose range contains the segment `s`, in order.
pub open spec fn guards_for<'a>(s: (u64, u64), cs: Seq<ClaimModel<'a>>) -> Seq<&'a EirGuard>
    decreases cs.len(),
{
    if cs.len() == 0 {
        Seq::empty()
    } else {
        let rest = guards_for(s, cs.drop_last());
        let c = cs.last();
        if c.0 <= s.0 && s.1 <= c.1 {
            rest.push(c.2)
        } else {
            rest
        }
    }
}

/// The guards cover every case, inside the context where there is one.
pub open spec fn guards_cover<'a>(gs: Seq<&'a EirGuard>, context: Option<Seq<EirGuardFrame>>) -> bool {
    match context {
        Some(c) => frames_cover(residuals(gs, c)),
        None => frames_cover(guard_paths(gs)),
    }
}

/// The frames of an optional context guard.
pub open spec fn context_frames(context: Option<&EirGuard>) -> Option<Seq<EirGuardFrame>> {
    match context {
        Some(c) => Some(c.frames@),
        None => None,
    }
}

/// There is at least one segment, and the guards of the claims containing
/// each segment cover it.
pub open spec fn segments_covered<'a>(
    segs: Seq<(u64, u64)>,
    clipped: Seq<ClaimModel<'a>>,
    context: Option<Seq<EirGuardFrame>>,
) -> bool {
    segs.len() > 0 && forall|i: int|
        0 <= i < segs.len() ==> guards_cover(guards_for(#[trigger] segs[i], clipped), context)
}

/// A range some drive writes, under that drive's guard.
pub struct CoverageClaim<'a> {
    pub range: DriverStaticRange,
    pub guard: &'a EirGuard,
}

/// What claims stand for.
pub open spec fn claim_models<'a>(v: Seq<CoverageClaim<'a>>) -> Seq<ClaimModel<'a>> {
    v.map_values(|c: CoverageClaim<'a>| (c.range.low_spec(), c.range.high_spec(), c.guard))
}

impl<'a> CoverageClaim<'a> {
    /// A claim on a range under a guard.
    pub fn new(range: DriverStaticRange, guard: &'a EirGuard) -> (r: Self)
        ensures
            r.range == range,
            r.guard == guard,
    {
        CoverageClaim { range, guard }
    }

    /// The part of the claim inside the required range, if they meet.
    pub fn clipped_to(&self, required: DriverStaticRange) -> (r: Option<Self>)
        ensures
            match clip_ends(
                self.range.low_spec(),
                self.range.high_spec(),
                required.low_spec(),
                required.high_spec(),
            ) {
                Some((l, h)) => r matches Some(c) && c.range.wf() && c.range.low_spec() == l
                    && c.range.high_spec() == h && c.guard == self.guard,
                None => r is None,
            },
    {
        let low = if self.range.low() >= required.low() {
            self.range.low()
        } else {
            required.low()
        };
        let high = if self.range.high() <= required.high() {
            self.range.high()
        } else {
            required.high()
        };
        if low > high {
            return None;
        }
        Some(Self::new(DriverStaticRange::new(low, high), self.guard))
    }
}

/// A required range and the claims on it.
pub struct SegmentCoverage<'a> {
    pub required: DriverStaticRange,
    pub claims: Vec<CoverageClaim<'a>>,
}

/// The segments a required range is cut into by its claims.
pub open spec fn claim_segments<'a>(rl: u64, rh: u64, clipped: Seq<ClaimModel<'a>>) -> Seq<(u64, u64)> {
    window_segments(sorted_points(seq![rl] + end_points(rh) + claim_points(clipped)), rl, rh)
}

impl<'a> SegmentCoverage<'a> {
    /// The claims on a required range.
    pub fn new(required: DriverStaticRange, claims: Vec<CoverageClaim<'a>>) -> (r: Self)
        ensures
            r.required == required,
            r.claims == claims,
    {
        SegmentCoverage { required, claims }
    }

    /// Every segment of the required range is covered unconditionally.
    pub fn is_complete(&self) -> (r: bool)
        ensures
            r == ({
                let clipped = clipped_claims(
                    claim_models(self.claims@),
                    self.required.low_spec(),
                    self.required.high_spec(),
                );
                segments_covered(
                    claim_segments(self.required.low_spec(), self.required.high_spec(), clipped),
                    clipped,
                    None,
                )
            }),
    {
        self.is_complete_with(None)
    }

    /// Every segment of the required range is covered inside the context.
    pub fn is_complete_under(&self, context: &EirGuard) -> (r: bool)
        ensures
            r == ({
                let clipped = clipped_claims(
                    claim_models(self.claims@),
                    self.required.low_spec(),
                    self.required.high_spec(),
                );
                segments_covered(
                    claim_segments(self.required.low_spec(), self.required.high_spec(), clipped),
                    clipped,
                    Some(context.frames@),
                )
            }),
    {
        self.is_complete_with(Some(context))
    }

    /// Every segment of the required range is covered, inside the context
    /// where there is one.
    pub fn is_complete_with(&self, context: Option<&EirGuard>) -> (r: bool)
        ensures
            r == ({
                let clipped = clipped_claims(
                    claim_models(self.claims@),
                    self.required.low_spec(),
                    self.required.high_spec(),
                );
                segments_covered(
                    claim_segments(self.required.low_spec(), self.required.high_spec(), clipped),
                    clipped,
                    context_frames(context),
                )
            }),
    {
        let ghost rl = self.required.low_spec();
        let ghost rh = self.required.high_spec();
        let ghost all = claim_models(self.claims@);
        let mut boundaries = CoverageBoundaries::new(self.required);
        let mut clipped: Vec<CoverageClaim<'a>> = Vec::new();
        let mut i: usize = 0;
        proof {
            assert(all.take(0) =~= Seq::<ClaimModel<'a>>::empty());
            assert(claim_models(clipped@) =~= Seq::<ClaimModel<'a>>::empty());
            assert(boundaries.points@ =~= seq![rl] + end_points(rh) + claim_points(
                claim_models(clipped@),
            ));
        }
        while i < self.claims.len()
            invariant
                i <= self.claims.len(),
                rl == self.required.low_spec(),
                rh == self.required.high_spec(),
                all == claim_models(self.claims@),
                boundaries.required == self.required,
                claim_models(clipped@) == clipped_claims(all.take(i as int), rl, rh),
                boundaries.points@ == seq![rl] + end_points(rh) + claim_points(claim_models(clipped@)),
            decreases self.claims.len() - i,
        {
            proof {
                assert(all.take(i + 1).drop_last() =~= all.take(i as int));
                assert(all.take(i + 1).last() == all[i as int]);
            }
            match self.claims[i].clipped_to(self.required) {
                Some(c) => {
                    let ghost before = clipped@;
                    boundaries.add_claim(&c);
                    clipped.push(c);
                    proof {
                        assert(claim_models(clipped@) =~= claim_models(before).push(
                            (c.range.low_spec(), c.range.high_spec(), c.guard),
                        ));
                        assert(claim_models(clipped@).drop_last() =~= claim_models(before));
                        assert(boundaries.points@ =~= seq![rl] + end_points(rh) + claim_points(
                            claim_models(clipped@),
                        ));
                    }
                },
                None => {},
            }
            i = i + 1;
        }
        proof {
            assert(all.take(self.claims.len() as int) =~= all);
        }
        let ghost cm = claim_models(clipped@);
        let segments = boundaries.into_segments();
        let ghost segs = range_ends(segments@);
        if segments.len() == 0 {
            return false;
        }
        let mut k: usize = 0;
        while k < segments.len()
            invariant
                k <= segments.len(),
                segs == range_ends(segments@),
                segs.len() == segments.len(),
                cm == claim_models(clipped@),
                cm == clipped_claims(claim_models(self.claims@), rl, rh),
                rl == self.required.low_spec(),
                rh == self.required.high_spec(),
                segs == claim_segments(rl, rh, cm),
                forall|j: int| 0 <= j < k ==> guards_cover(
                    guards_for(#[trigger] segs[j], cm),
                    context_frames(context),
                ),
            decreases segments.len() - k,
        {
            if !self.segment_is_covered(segments[k], clipped.as_slice(), context) {
                proof {
                    assert(segs[k as int] == (segments@[k as int].low_spec(), segments@[k as int].high_spec()));
                }
                return false;
            }
            proof {
                assert(segs[k as int] == (segments@[k as int].low_spec(), segments@[k as int].high_spec()));
            }
            k = k + 1;
        }
        true
    }

    /// The guards of the claims containing the segment cover it.
    pub fn segment_is_covered(
        &self,
        segment: DriverStaticRange,
        claims: &[CoverageClaim<'a>],
        context: Option<&EirGuard>,
    ) -> (r: bool)
        ensures
            r == guards_cover(
                guards_for((segment.low_spec(), segment.high_spec()), claim_models(claims@)),
                context_frames(context),
            ),
    {
        let ghost s = (segment.low_spec(), segment.high_spec());
        let ghost cm = claim_models(claims@);
        let mut guards = GuardCoverage::new();
        let mut m: usize = 0;
        proof {
            assert(cm.take(0) =~= Seq::<ClaimModel<'a>>::empty());
            assert(guards.guards@ =~= Seq::<&EirGuard>::empty());
        }
        while m < claims.len()
            invariant
                m <= claims.len(),
                s == (segment.low_spec(), segment.high_spec()),
                cm == claim_models(claims@),
                guards.guards@ == guards_for(s, cm.take(m as int)),
            decreases claims.len() - m,
        {
            proof {
                assert(cm.take(m + 1).drop_last() =~= cm.take(m as int));
                assert(cm.take(m + 1).last() == cm[m as int]);
            }
            if claims[m].range.contains_range(&segment) {
                guards.add(claims[m].guard);
            }
            m = m + 1;
        }
        proof {
            assert(cm.take(claims.len() as int) =~= cm);
        }
        match context {
            Some(c) => guards.covers_under(c),
            None => guards.covers_unconditionally(),
        }
    }
}

/// A range some drive of a signal writes, under that drive's guard.
pub struct SignalCoverageClaim<'a> {
    pub range: DriverStaticRange,
    pub guard: &'a EirGuard,
}

/// What signal claims stand for.
pub open spec fn signal_claim_models<'a>(v: Seq<SignalCoverageClaim<'a>>) -> Seq<ClaimModel<'a>> {
    v.map_values(|c: SignalCoverageClaim<'a>| (c.range.low_spec(), c.range.high_spec(), c.guard))
}

impl<'a> SignalCoverageClaim<'a> {
    /// A claim on a range under a guard.
    pub fn new(range: DriverStaticRange, guard: &'a EirGuard) -> (r: Self)
        ensures
            r.range == range,
            r.guard == guard,
    {
        SignalCoverageClaim { range, guard }
    }

    /// The part of the claim inside the required range, if they meet.
    pub fn clipped_to(&self, required: DriverStaticRange) -> (r: Option<Self>)
        ensures
            match clip_ends(
                self.range.low_spec(),
                self.range.high_spec(),
                required.low_spec(),
                required.high_spec(),
            ) {
                Some((l, h)) => r matches Some(c) && c.range.wf() && c.range.low_spec() == l
                    && c.range.high_spec() == h && c.guard == self.guard,
                None => r is None,
            },
    {
        let low = if self.range.low() >= required.low() {
            self.range.low()
        } else {
            required.low()
        };
        let high = if self.range.high() <= required.high() {
            self.range.high()
        } else {
            required.high()
        };
        if low > high {
            return None;
        }
        Some(Self::new(DriverStaticRange::new(low, high), self.guard))
    }
}

/// The segments a required signal range is cut into by its claims.
pub open spec fn signal_segments<'a>(rl: u64, rh: u64, clipped: Seq<ClaimModel<'a>>) -> Seq<
    (u64, u64),
> {
    window_segments(
        sorted_points(seq![rl, saturating_end(rh)] + signal_claim_points(clipped)),
        rl,
        rh,
    )
}

/// A required signal range and the claims on it.
pub struct SignalSegmentCoverage<'a> {
    pub required: DriverStaticRange,
    pub claims: Vec<SignalCoverageClaim<'a>>,
}

impl<'a> SignalSegmentCoverage<'a> {
    /// The claims on a required range.
    pub fn new(required: DriverStaticRange, claims: Vec<SignalCoverageClaim<'a>>) -> (r: Self)
        ensures
            r.required == required,
            r.claims == claims,
    {
        SignalSegmentCoverage { required, claims }
    }

    /// Every segment of the required range is covered unconditionally.
    pub fn is_complete(&self) -> (r: bool)
        ensures
            r == ({
                let clipped = clipped_claims(
                    signal_claim_models(self.claims@),
                    self.required.low_spec(),
                    self.required.high_spec(),
                );
                segments_covered(
                    signal_segments(self.required.low_spec(), self.required.high_spec(), clipped),
                    clipped,
                    None,
                )
            }),
    {
        let ghost rl = self.required.low_spec();
        let ghost rh = self.required.high_spec();
        let ghost all = signal_claim_models(self.claims@);
        let mut boundaries = SignalCoverageBoundaries::new(self.required);
        let mut clipped: Vec<SignalCoverageClaim<'a>> = Vec::new();
        let mut i: usize = 0;
        proof {
            assert(all.take(0) =~= Seq::<ClaimModel<'a>>::empty());
            assert(signal_claim_models(clipped@) =~= Seq::<ClaimModel<'a>>::empty());
            assert(boundaries.points@ =~= seq![rl, saturating_end(rh)] + signal_claim_points(
                signal_claim_models(clipped@),
            ));
        }
        while i < self.claims.len()
            invariant
                i <= self.claims.len(),
                rl == self.required.low_spec(),
                rh == self.required.high_spec(),
                all == signal_claim_models(self.claims@),
                boundaries.required == self.required,
                signal_claim_models(clipped@) == clipped_claims(all.take(i as int), rl, rh),
                boundaries.points@ == seq![rl, saturating_end(rh)] + signal_claim_points(
                    signal_claim_models(clipped@),
                ),
            decreases self.claims.len() - i,
        {
            proof {
                assert(all.take(i + 1).drop_last() =~= all.take(i as int));
                assert(all.take(i + 1).last() == all[i as int]);
            }
            match self.claims[i].clipped_to(self.required) {
                Some(c) => {
                    let ghost before = clipped@;
                    boundaries.add_claim(&c);
                    clipped.push(c);
                    proof {
                        assert(signal_claim_models(clipped@) =~= signal_claim_models(before).push(
                            (c.range.low_spec(), c.range.high_spec(), c.guard),
                        ));
                        assert(signal_claim_models(clipped@).drop_last() =~= signal_claim_models(
                            before,
                        ));
                        assert(boundaries.points@ =~= seq![rl, saturating_end(rh)]
                            + signal_claim_points(signal_claim_models(clipped@)));
                    }
                },
                None => {},
            }
            i = i + 1;
        }
        proof {
            assert(all.take(self.claims.len() as int) =~= all);
        }
        let ghost cm = signal_claim_models(clipped@);
        let segments = boundaries.into_segments();
        let ghost segs = range_ends(segments@);
        if segments.len() == 0 {
            return false;
        }
        let mut k: usize = 0;
        while k < segments.len()
            invariant
                k <= segments.len(),
                segs == range_ends(segments@),
                segs.len() == segments.len(),
                cm == signal_claim_models(clipped@),
                cm == clipped_claims(signal_claim_models(self.claims@), rl, rh),
                rl == self.required.low_spec(),
                rh == self.required.high_spec(),
                segs == signal_segments(rl, rh, cm),
                forall|j: int| 0 <= j < k ==> guards_cover(guards_for(#[trigger] segs[j], cm), None),
            decreases segments.len() - k,
        {
            let covered = self.segment_is_covered(segments[k], clipped.as_slice());
            proof {
                assert(segs[k as int] == (segments@[k as int].low_spec(), segments@[k as int].high_spec()));
            }
            if !covered {
                return false;
            }
            k = k + 1;
        }
        true
    }

    /// The guards of the claims containing the segment cover it.
    pub fn segment_is_covered(&self, segment: DriverStaticRange, claims: &[SignalCoverageClaim<'a>]) -> (r:
        bool)
        ensures
            r == guards_cover(
                guards_for((segment.low_spec(), segment.high_spec()), signal_claim_models(claims@)),
                None,
            ),
    {
        let ghost s = (segment.low_spec(), segment.high_spec());
        let ghost cm = signal_claim_models(claims@);
        let mut guards = GuardCoverage::new();
        let mut m: usize = 0;
        proof {
            assert(cm.take(0) =~= Seq::<ClaimModel<'a>>::empty());
            assert(guards.guards@ =~= Seq::<&EirGuard>::empty());
        }
        while m < claims.len()
            invariant
                m <= claims.len(),
                s == (segment.low_spec(), segment.high_spec()),
                cm == signal_claim_models(claims@),
                guards.guards@ == guards_for(s, cm.take(m as int)),
            decreases claims.len() - m,
        {
            proof {
                assert(cm.take(m + 1).drop_last() =~= cm.take(m as int));
                assert(cm.take(m + 1).last() == cm[m as int]);
            }
            if claims[m].range.contains_range(&segment) {
                guards.add(claims[m].guard);
            }
            m = m + 1;
        }
        proof {
            assert(cm.take(claims.len() as int) =~= cm);
        }
        guards.covers_unconditionally()
    }
}

} // verus!
