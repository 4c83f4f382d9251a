//! The captured-ink data model: strokes of timestamped, pressure-tagged
//! samples in integer pixel space, together with the exact integer arithmetic
//! (floor and round-half-away division, integer square root) that the
//! classifier's cell-relative ratio tests are built from.

use vstd::prelude::*;

verus! {

/// Every sample coordinate of any ink handled by the library stays within
/// this bound (in pixels).
pub const INK_XY_BOUND: i64 = 536870912;

/// Ink handed to the tokenizer obeys this tighter bound, so that the
/// per-column translations stay within `INK_XY_BOUND`.
pub const RAW_XY_BOUND: i64 = 134217728;

/// Raw captured ink handed to the classifier obeys this bound, half of
/// `RAW_XY_BOUND`, so that the classifier's row translation stays within the
/// tokenizer's bound.
pub const CLASSIFY_XY_BOUND: i64 = 67108864;

/// Stroke timestamps stay within this bound.
pub const TIME_BOUND: i64 = 1099511627776;

/// A single stroke holds at most this many samples.
pub const STROKE_SAMPLE_LIMIT: usize = 4096;

/// An ink holds at most this many strokes.
pub const STROKE_LIMIT: usize = 4096;

/// One stylus sample: position in pixels and pen pressure.
#[derive(Clone, Copy, PartialEq, Eq, Structural, Debug)]
pub struct Sample {
    pub x: i32,
    pub y: i32,
    pub pressure: i32,
}

/// One pen-down-to-pen-up stroke: ordered samples and the time range over
/// which they were captured.
pub struct Stroke {
    pub points: Vec<Sample>,
    pub t_min: i64,
    pub t_max: i64,
}

/// Captured stylus input: an ordered collection of strokes.
pub struct Ink {
    pub strokes: Vec<Stroke>,
}

#[verifier::ext_equal]
pub ghost struct StrokeView {
    pub points: Seq<Sample>,
    pub t_min: int,
    pub t_max: int,
}

impl View for Stroke {
    type V = StrokeView;

    open spec fn view(&self) -> StrokeView {
        StrokeView { points: self.points@, t_min: self.t_min as int, t_max: self.t_max as int }
    }
}

impl View for Ink {
    type V = Seq<StrokeView>;

    open spec fn view(&self) -> Seq<StrokeView> {
        self.strokes@.map_values(|s: Stroke| s@)
    }
}

pub open spec fn sample_within(s: Sample, b: int) -> bool {
    -b <= s.x <= b && -b <= s.y <= b
}

pub open spec fn stroke_within(s: StrokeView, b: int) -> bool {
    forall|j: int| 0 <= j < s.points.len() ==> sample_within(#[trigger] s.points[j], b)
}

pub open spec fn ink_within(i: Seq<StrokeView>, b: int) -> bool {
    forall|k: int| 0 <= k < i.len() ==> stroke_within(#[trigger] i[k], b)
}

/// A structurally sound stroke: non-empty, bounded size, coordinates and
/// times within the library's limits.
pub open spec fn stroke_wf(s: StrokeView) -> bool {
    &&& 1 <= s.points.len() <= STROKE_SAMPLE_LIMIT
    &&& stroke_within(s, INK_XY_BOUND as int)
    &&& -TIME_BOUND <= s.t_min <= s.t_max <= TIME_BOUND
}

/// A structurally sound ink: a bounded number of well-formed strokes.
pub open spec fn ink_wf(i: Seq<StrokeView>) -> bool {
    &&& i.len() <= STROKE_LIMIT
    &&& forall|k: int| 0 <= k < i.len() ==> stroke_wf(#[trigger] i[k])
}

impl Ink {
    pub open spec fn wf(&self) -> bool {
        ink_wf(self@)
    }

    /// An ink with no strokes at all.
    pub fn empty() -> (r: Ink)
        ensures
            r@ =~= Seq::<StrokeView>::empty(),
            r.wf(),
    {
        Ink { strokes: Vec::new() }
    }
}

/// The pixel-to-grid mapping: cell height and width, and the baseline's
/// offset from the top of a cell.
#[derive(Clone, Copy, PartialEq, Eq, Structural, Debug)]
pub struct Metrics {
    pub height: i32,
    pub width: i32,
    pub baseline: i32,
}

impl Metrics {
    /// Sane grid geometry: cells at least 8 pixels tall (so an eighth of a
    /// cell is a whole pixel), at most 4096 pixels in either direction.
    pub open spec fn wf(&self) -> bool {
        8 <= self.height <= 4096 && 1 <= self.width <= 4096 && 0 <= self.baseline <= self.height
    }

    /// Grid metrics from the configured cell height: a glyph cell half as
    /// wide as it is tall, with the baseline three quarters of the way down.
    pub fn new(height: i32) -> (m: Metrics)
        ensures
            m.wf(),
            m.height == if height < 8 {
                8
            } else if height > 4096 {
                4096
            } else {
                height
            },
            m.width == m.height / 2,
            m.baseline == m.height * 3 / 4,
    {
        let h = if height < 8 {
            8
        } else if height > 4096 {
            4096
        } else {
            height
        };
        Metrics { height: h, width: h / 2, baseline: h * 3 / 4 }
    }
}

/// Floor division on integers (rounding toward negative infinity), as a spec:
/// Verus's `/` on `int` is Euclidean division, which agrees with flooring
/// whenever the divisor is positive.
pub open spec fn floor_div_spec(n: int, d: int) -> int
    recommends
        d > 0,
{
    n / d
}

/// Rounding division: the nearest integer to `n / d`, halves away from zero.
pub open spec fn round_div_spec(n: int, d: int) -> int
    recommends
        d > 0,
{
    if n >= 0 {
        (2 * n + d) / (2 * d)
    } else {
        -((2 * -n + d) / (2 * d))
    }
}

/// Floor division in executable code.
pub fn floor_div(n: i64, d: i64) -> (r: i64)
    requires
        0 < d,
        -0x2000_0000_0000_0000 <= n <= 0x2000_0000_0000_0000,
        d <= 0x2000_0000_0000_0000,
    ensures
        r == floor_div_spec(n as int, d as int),
{
    if n >= 0 {
        n / d
    } else {
        let q = (-n + d - 1) / d;
        proof {
            let nn = n as int;
            let dd = d as int;
            assert((-nn + dd - 1) / dd == -(nn / dd)) by (nonlinear_arith)
                requires
                    dd > 0,
                    nn < 0,
            ;
        }
        -q
    }
}

/// Rounding division in executable code.
pub fn round_div(n: i64, d: i64) -> (r: i64)
    requires
        0 < d <= 0x1000_0000_0000_0000,
        -0x1000_0000_0000_0000 <= n <= 0x1000_0000_0000_0000,
    ensures
        r == round_div_spec(n as int, d as int),
{
    if n >= 0 {
        (2 * n + d) / (2 * d)
    } else {
        -((2 * -n + d) / (2 * d))
    }
}

/// The integer square root: the greatest `r` with `r * r <= n`.
pub open spec fn isqrt_spec(n: int) -> int
    recommends
        n >= 0,
    decreases n,
{
    if n <= 0 {
        0
    } else {
        let r = isqrt_spec(n - 1);
        if (r + 1) * (r + 1) <= n {
            r + 1
        } else {
            r
        }
    }
}

pub proof fn lemma_isqrt_bracket(n: int)
    requires
        n >= 0,
    ensures
        isqrt_spec(n) * isqrt_spec(n) <= n,
        (isqrt_spec(n) + 1) * (isqrt_spec(n) + 1) > n,
        isqrt_spec(n) >= 0,
    decreases n,
{
    if n > 0 {
        lemma_isqrt_bracket(n - 1);
        let r = isqrt_spec(n - 1);
        assert((r + 1) * (r + 1) >= r * r) by (nonlinear_arith)
            requires
                r >= 0,
        ;
        assert((r + 2) * (r + 2) > (r + 1) * (r + 1)) by (nonlinear_arith)
            requires
                r >= 0,
        ;
    }
}

/// The square-root bracket pins the value down uniquely.
pub proof fn lemma_isqrt_unique(n: int, r: int)
    requires
        n >= 0,
        r >= 0,
        r * r <= n,
        (r + 1) * (r + 1) > n,
    ensures
        r == isqrt_spec(n),
{
    lemma_isqrt_bracket(n);
    let s = isqrt_spec(n);
    if r < s {
        assert((r + 1) * (r + 1) <= s * s) by (nonlinear_arith)
            requires
                0 <= r,
                r + 1 <= s,
        ;
    }
    if s < r {
        assert((s + 1) * (s + 1) <= r * r) by (nonlinear_arith)
            requires
                0 <= s,
                s + 1 <= r,
        ;
    }
}

pub open spec fn sq(v: int) -> int {
    v * v
}

// ---- aggregates over one stroke's samples ----

pub open spec fn sum_x(pts: Seq<Sample>) -> int
    decreases pts.len(),
{
    if pts.len() == 0 {
        0
    } else {
        sum_x(pts.drop_last()) + pts.last().x
    }
}

pub open spec fn sum_y(pts: Seq<Sample>) -> int
    decreases pts.len(),
{
    if pts.len() == 0 {
        0
    } else {
        sum_y(pts.drop_last()) + pts.last().y
    }
}

pub open spec fn min_x(pts: Seq<Sample>) -> int
    recommends
        pts.len() >= 1,
    decreases pts.len(),
{
    if pts.len() <= 1 {
        pts[0].x as int
    } else {
        let m = min_x(pts.drop_last());
        if pts.last().x < m {
            pts.last().x as int
        } else {
            m
        }
    }
}

pub open spec fn max_x(pts: Seq<Sample>) -> int
    recommends
        pts.len() >= 1,
    decreases pts.len(),
{
    if pts.len() <= 1 {
        pts[0].x as int
    } else {
        let m = max_x(pts.drop_last());
        if pts.last().x > m {
            pts.last().x as int
        } else {
            m
        }
    }
}

pub open spec fn min_y(pts: Seq<Sample>) -> int
    recommends
        pts.len() >= 1,
    decreases pts.len(),
{
    if pts.len() <= 1 {
        pts[0].y as int
    } else {
        let m = min_y(pts.drop_last());
        if pts.last().y < m {
            pts.last().y as int
        } else {
            m
        }
    }
}

pub open spec fn max_y(pts: Seq<Sample>) -> int
    recommends
        pts.len() >= 1,
    decreases pts.len(),
{
    if pts.len() <= 1 {
        pts[0].y as int
    } else {
        let m = max_y(pts.drop_last());
        if pts.last().y > m {
            pts.last().y as int
        } else {
            m
        }
    }
}

/// The length of the segment between two samples, as an integer square root.
pub open spec fn seg_len(a: Sample, b: Sample) -> int {
    isqrt_spec(sq(b.x - a.x) + sq(b.y - a.y))
}

/// The arc length of a polyline: the sum of its segment lengths.
pub open spec fn path_len(pts: Seq<Sample>) -> int
    decreases pts.len(),
{
    if pts.len() <= 1 {
        0
    } else {
        path_len(pts.drop_last()) + seg_len(pts[pts.len() - 2], pts.last())
    }
}

// ---- aggregates over a whole ink ----

pub open spec fn ink_count(i: Seq<StrokeView>) -> int
    decreases i.len(),
{
    if i.len() == 0 {
        0
    } else {
        ink_count(i.drop_last()) + i.last().points.len()
    }
}

pub open spec fn ink_sum_x(i: Seq<StrokeView>) -> int
    decreases i.len(),
{
    if i.len() == 0 {
        0
    } else {
        ink_sum_x(i.drop_last()) + sum_x(i.last().points)
    }
}

pub open spec fn ink_sum_y(i: Seq<StrokeView>) -> int
    decreases i.len(),
{
    if i.len() == 0 {
        0
    } else {
        ink_sum_y(i.drop_last()) + sum_y(i.last().points)
    }
}

pub open spec fn ink_min_x(i: Seq<StrokeView>) -> int
    recommends
        i.len() >= 1,
    decreases i.len(),
{
    if i.len() <= 1 {
        min_x(i[0].points)
    } else {
        let m = ink_min_x(i.drop_last());
        let l = min_x(i.last().points);
        if l < m {
            l
        } else {
            m
        }
    }
}

pub open spec fn ink_max_x(i: Seq<StrokeView>) -> int
    recommends
        i.len() >= 1,
    decreases i.len(),
{
    if i.len() <= 1 {
        max_x(i[0].points)
    } else {
        let m = ink_max_x(i.drop_last());
        let l = max_x(i.last().points);
        if l > m {
            l
        } else {
            m
        }
    }
}

pub open spec fn ink_min_y(i: Seq<StrokeView>) -> int
    recommends
        i.len() >= 1,
    decreases i.len(),
{
    if i.len() <= 1 {
        min_y(i[0].points)
    } else {
        let m = ink_min_y(i.drop_last());
        let l = min_y(i.last().points);
        if l < m {
            l
        } else {
            m
        }
    }
}

pub open spec fn ink_max_y(i: Seq<StrokeView>) -> int
    recommends
        i.len() >= 1,
    decreases i.len(),
{
    if i.len() <= 1 {
        max_y(i[0].points)
    } else {
        let m = ink_max_y(i.drop_last());
        let l = max_y(i.last().points);
        if l > m {
            l
        } else {
            m
        }
    }
}

/// Total arc length of all strokes.
pub open spec fn ink_len_of(i: Seq<StrokeView>) -> int
    decreases i.len(),
{
    if i.len() == 0 {
        0
    } else {
        ink_len_of(i.drop_last()) + path_len(i.last().points)
    }
}

// ---- bounds needed to keep the executable arithmetic in range ----

pub proof fn lemma_sum_bounds(pts: Seq<Sample>, b: int)
    requires
        b >= 0,
        forall|j: int| 0 <= j < pts.len() ==> sample_within(#[trigger] pts[j], b),
    ensures
        -(pts.len() * b) <= sum_x(pts) <= pts.len() * b,
        -(pts.len() * b) <= sum_y(pts) <= pts.len() * b,
    decreases pts.len(),
{
    if pts.len() > 0 {
        lemma_sum_bounds(pts.drop_last(), b);
        assert((pts.len() - 1) * b + b == pts.len() * b) by (nonlinear_arith);
    }
}

pub proof fn lemma_minmax_bounds(pts: Seq<Sample>, b: int)
    requires
        b >= 0,
        pts.len() >= 1,
        forall|j: int| 0 <= j < pts.len() ==> sample_within(#[trigger] pts[j], b),
    ensures
        -b <= min_x(pts) <= max_x(pts) <= b,
        -b <= min_y(pts) <= max_y(pts) <= b,
    decreases pts.len(),
{
    if pts.len() > 1 {
        lemma_minmax_bounds(pts.drop_last(), b);
    }
}

/// Each sample lies inside its stroke's bounding box.
pub proof fn lemma_minmax_contains(pts: Seq<Sample>, j: int)
    requires
        0 <= j < pts.len(),
    ensures
        min_x(pts) <= pts[j].x <= max_x(pts),
        min_y(pts) <= pts[j].y <= max_y(pts),
    decreases pts.len(),
{
    if pts.len() > 1 && j < pts.len() - 1 {
        lemma_minmax_contains(pts.drop_last(), j);
    }
}

pub proof fn lemma_seg_len_bound(a: Sample, b2: Sample, b: int)
    requires
        b >= 0,
        sample_within(a, b),
        sample_within(b2, b),
    ensures
        0 <= seg_len(a, b2) <= 3 * b,
{
    let n = sq(b2.x - a.x) + sq(b2.y - a.y);
    let dx = b2.x - a.x;
    let dy = b2.y - a.y;
    assert(0 <= dx * dx + dy * dy <= 8 * b * b) by (nonlinear_arith)
        requires
            -2 * b <= dx <= 2 * b,
            -2 * b <= dy <= 2 * b,
    ;
    assert(n == dx * dx + dy * dy);
    lemma_isqrt_bracket(n);
    if seg_len(a, b2) > 3 * b {
        assert((3 * b + 1) * (3 * b + 1) > 8 * b * b) by (nonlinear_arith)
            requires
                b >= 0,
        ;
        assert(isqrt_spec(n) * isqrt_spec(n) > 8 * b * b) by (nonlinear_arith)
            requires
                isqrt_spec(n) >= 3 * b + 1 >= 0,
                (3 * b + 1) * (3 * b + 1) > 8 * b * b,
        ;
    }
}

pub proof fn lemma_path_len_bound(pts: Seq<Sample>, b: int)
    requires
        b >= 0,
        forall|j: int| 0 <= j < pts.len() ==> sample_within(#[trigger] pts[j], b),
    ensures
        0 <= path_len(pts) <= pts.len() * (3 * b),
    decreases pts.len(),
{
    if pts.len() > 1 {
        lemma_path_len_bound(pts.drop_last(), b);
        lemma_seg_len_bound(pts[pts.len() - 2], pts.last(), b);
        assert((pts.len() - 1) * (3 * b) + 3 * b == pts.len() * (3 * b)) by (nonlinear_arith);
    } else if pts.len() == 1 {
        assert(pts.len() * (3 * b) >= 0) by (nonlinear_arith)
            requires
                b >= 0,
                pts.len() >= 0,
        ;
    }
}

/// The aggregates of a one-sample polyline.
pub proof fn lemma_singleton_stats(p: Sample)
    ensures
        sum_x(seq![p]) == p.x as int,
        sum_y(seq![p]) == p.y as int,
        min_x(seq![p]) == p.x as int,
        max_x(seq![p]) == p.x as int,
        min_y(seq![p]) == p.y as int,
        max_y(seq![p]) == p.y as int,
        path_len(seq![p]) == 0,
{
    let s = seq![p];
    assert(s.drop_last() =~= Seq::<Sample>::empty());
    assert(sum_x(Seq::<Sample>::empty()) == 0);
    assert(sum_y(Seq::<Sample>::empty()) == 0);
}

pub proof fn lemma_ink_aggregate_bounds(i: Seq<StrokeView>, b: int)
    requires
        b >= 0,
        forall|k: int| 0 <= k < i.len() ==> stroke_within(#[trigger] i[k], b),
        forall|k: int| 0 <= k < i.len() ==> 1 <= (#[trigger] i[k]).points.len() <= STROKE_SAMPLE_LIMIT,
        i.len() <= STROKE_LIMIT,
    ensures
        0 <= ink_count(i) <= i.len() * (STROKE_SAMPLE_LIMIT as int),
        -(ink_count(i) * b) <= ink_sum_x(i) <= ink_count(i) * b,
        -(ink_count(i) * b) <= ink_sum_y(i) <= ink_count(i) * b,
        0 <= ink_len_of(i) <= ink_count(i) * (3 * b),
        i.len() >= 1 ==> -b <= ink_min_x(i) <= ink_max_x(i) <= b,
        i.len() >= 1 ==> -b <= ink_min_y(i) <= ink_max_y(i) <= b,
    decreases i.len(),
{
    if i.len() > 0 {
        lemma_ink_aggregate_bounds(i.drop_last(), b);
        let pts = i.last().points;
        assert(forall|j: int| 0 <= j < pts.len() ==> sample_within(#[trigger] pts[j], b));
        lemma_sum_bounds(pts, b);
        lemma_minmax_bounds(pts, b);
        lemma_path_len_bound(pts, b);
        let c0 = ink_count(i.drop_last());
        let n = pts.len() as int;
        assert((i.len() - 1) * (STROKE_SAMPLE_LIMIT as int) + STROKE_SAMPLE_LIMIT >= c0 + n) by (nonlinear_arith)
            requires
                c0 <= (i.len() - 1) * (STROKE_SAMPLE_LIMIT as int),
                n <= STROKE_SAMPLE_LIMIT,
        ;
        assert((i.len() - 1) * (STROKE_SAMPLE_LIMIT as int) + STROKE_SAMPLE_LIMIT == i.len() * (
        STROKE_SAMPLE_LIMIT as int)) by (nonlinear_arith);
        assert(c0 * b + n * b == (c0 + n) * b) by (nonlinear_arith);
        assert(c0 * (3 * b) + n * (3 * b) == (c0 + n) * (3 * b)) by (nonlinear_arith);
    }
}

// ---- translation ----

pub open spec fn sample_shift(p: Sample, dx: int, dy: int) -> Sample {
    Sample { x: (p.x + dx) as i32, y: (p.y + dy) as i32, pressure: p.pressure }
}

pub open spec fn stroke_shift(s: StrokeView, dx: int, dy: int) -> StrokeView {
    StrokeView {
        points: s.points.map_values(|p: Sample| sample_shift(p, dx, dy)),
        t_min: s.t_min,
        t_max: s.t_max,
    }
}

pub open spec fn ink_shift(i: Seq<StrokeView>, dx: int, dy: int) -> Seq<StrokeView> {
    i.map_values(|s: StrokeView| stroke_shift(s, dx, dy))
}

/// Every sample, moved by the offset, stays within the library's coordinate
/// bound.
pub open spec fn shift_in_bounds(i: Seq<StrokeView>, dx: int, dy: int) -> bool {
    forall|k: int, j: int|
        0 <= k < i.len() && 0 <= j < i[k].points.len() ==> {
            let p = #[trigger] i[k].points[j];
            -INK_XY_BOUND <= p.x + dx <= INK_XY_BOUND && -INK_XY_BOUND <= p.y + dy <= INK_XY_BOUND
        }
}

/// One stroke, moved rigidly by the given offset.
pub fn translate_stroke(s: &Stroke, dx: i64, dy: i64) -> (r: Stroke)
    requires
        stroke_wf(s@),
        forall|j: int|
            0 <= j < s@.points.len() ==> {
                let p = #[trigger] s@.points[j];
                -INK_XY_BOUND <= p.x + dx <= INK_XY_BOUND && -INK_XY_BOUND <= p.y + dy
                    <= INK_XY_BOUND
            },
    ensures
        r@ == stroke_shift(s@, dx as int, dy as int),
        stroke_wf(r@),
{
    let mut points: Vec<Sample> = Vec::new();
    let n = s.points.len();
    let mut j: usize = 0;
    while j < n
        invariant
            j <= n,
            n == s.points.len(),
            stroke_wf(s@),
            forall|k: int|
                0 <= k < s@.points.len() ==> {
                    let p = #[trigger] s@.points[k];
                    -INK_XY_BOUND <= p.x + dx <= INK_XY_BOUND && -INK_XY_BOUND <= p.y + dy
                        <= INK_XY_BOUND
                },
            points@.len() == j,
            forall|k: int|
                0 <= k < j ==> #[trigger] points@[k] == sample_shift(
                    s@.points[k],
                    dx as int,
                    dy as int,
                ),
        decreases n - j,
    {
        let p = s.points[j];
        let q = Sample { x: (p.x as i64 + dx) as i32, y: (p.y as i64 + dy) as i32, pressure: p.pressure };
        points.push(q);
        j += 1;
    }
    let r = Stroke { points, t_min: s.t_min, t_max: s.t_max };
    proof {
        assert(r@.points =~= stroke_shift(s@, dx as int, dy as int).points);
        assert(r@ =~~= stroke_shift(s@, dx as int, dy as int));
    }
    r
}

/// A running summary of an ink's geometry: sample count, coordinate sums,
/// bounding box (meaningful only when the count is nonzero) and arc length.
pub struct InkStats {
    pub count: u64,
    pub sum_x: i64,
    pub sum_y: i64,
    pub min_x: i64,
    pub max_x: i64,
    pub min_y: i64,
    pub max_y: i64,
    pub length: u64,
}

/// The length of one segment.
pub fn seg_len_exec(a: Sample, b: Sample) -> (r: u64)
    requires
        sample_within(a, INK_XY_BOUND as int),
        sample_within(b, INK_XY_BOUND as int),
    ensures
        r == seg_len(a, b),
        r <= 3 * INK_XY_BOUND,
{
    let dx = b.x as i64 - a.x as i64;
    let dy = b.y as i64 - a.y as i64;
    proof {
        let bb = INK_XY_BOUND as int;
        assert(0 <= dx * dx + dy * dy <= 8 * bb * bb && 0 <= dx * dx <= 4 * bb * bb && 0 <= dy * dy
            <= 4 * bb * bb) by (nonlinear_arith)
            requires
                -2 * bb <= dx <= 2 * bb,
                -2 * bb <= dy <= 2 * bb,
        ;
        lemma_seg_len_bound(a, b, bb);
    }
    let n = (dx * dx + dy * dy) as u64;
    isqrt(n)
}

impl Ink {
    /// Summarize the ink's geometry in one pass.
    pub fn stats(&self) -> (r: InkStats)
        requires
            self.wf(),
        ensures
            r.count == ink_count(self@),
            r.sum_x == ink_sum_x(self@),
            r.sum_y == ink_sum_y(self@),
            r.length == ink_len_of(self@),
            self@.len() >= 1 ==> r.min_x == ink_min_x(self@) && r.max_x == ink_max_x(self@)
                && r.min_y == ink_min_y(self@) && r.max_y == ink_max_y(self@),
    {
        let mut st = InkStats {
            count: 0,
            sum_x: 0,
            sum_y: 0,
            min_x: 0,
            max_x: 0,
            min_y: 0,
            max_y: 0,
            length: 0,
        };
        let n = self.strokes.len();
        let mut k: usize = 0;
        while k < n
            invariant
                k <= n,
                n == self.strokes.len(),
                self.wf(),
                st.count == ink_count(self@.take(k as int)),
                st.sum_x == ink_sum_x(self@.take(k as int)),
                st.sum_y == ink_sum_y(self@.take(k as int)),
                st.length == ink_len_of(self@.take(k as int)),
                k >= 1 ==> st.min_x == ink_min_x(self@.take(k as int)) && st.max_x == ink_max_x(
                    self@.take(k as int),
                ) && st.min_y == ink_min_y(self@.take(k as int)) && st.max_y == ink_max_y(
                    self@.take(k as int),
                ),
            decreases n - k,
        {
            let ghost pre = self@.take(k as int);
            proof {
                assert(forall|t: int| 0 <= t < pre.len() ==> pre[t] == self@[t]);
                lemma_ink_aggregate_bounds(pre, INK_XY_BOUND as int);
                assert(pre.len() * (STROKE_SAMPLE_LIMIT as int) <= 0x100_0000) by (nonlinear_arith)
                    requires
                        0 <= pre.len() <= STROKE_LIMIT,
                ;
                assert(ink_count(pre) * INK_XY_BOUND <= 0x40_0000_0000_0000) by (nonlinear_arith)
                    requires
                        0 <= ink_count(pre) <= 0x100_0000,
                ;
                assert(ink_count(pre) * (3 * INK_XY_BOUND) <= 0xC0_0000_0000_0000)
                    by (nonlinear_arith)
                    requires
                        0 <= ink_count(pre) <= 0x100_0000,
                ;
            }
            let stroke = &self.strokes[k];
            proof {
                assert(self@[k as int] == self.strokes@[k as int]@);
                assert(stroke_wf(self@[k as int]));
            }
            let ghost pts = stroke@.points;
            let m = stroke.points.len();
            let p0 = stroke.points[0];
            let mut s_sum_x: i64 = p0.x as i64;
            let mut s_sum_y: i64 = p0.y as i64;
            let mut s_min_x: i64 = p0.x as i64;
            let mut s_max_x: i64 = p0.x as i64;
            let mut s_min_y: i64 = p0.y as i64;
            let mut s_max_y: i64 = p0.y as i64;
            let mut s_len: u64 = 0;
            let mut j: usize = 1;
            proof {
                assert(pts.take(1) =~= seq![pts[0]]);
                lemma_singleton_stats(pts[0]);
            }
            while j < m
                invariant
                    1 <= j <= m,
                    m == pts.len(),
                    pts == stroke@.points,
                    stroke_wf(stroke@),
                    s_sum_x == sum_x(pts.take(j as int)),
                    s_sum_y == sum_y(pts.take(j as int)),
                    s_min_x == min_x(pts.take(j as int)),
                    s_max_x == max_x(pts.take(j as int)),
                    s_min_y == min_y(pts.take(j as int)),
                    s_max_y == max_y(pts.take(j as int)),
                    s_len == path_len(pts.take(j as int)),
                decreases m - j,
            {
                let ghost spre = pts.take(j as int);
                proof {
                    assert(forall|t: int| 0 <= t < spre.len() ==> spre[t] == pts[t]);
                    lemma_sum_bounds(spre, INK_XY_BOUND as int);
                    lemma_minmax_bounds(spre, INK_XY_BOUND as int);
                    lemma_path_len_bound(spre, INK_XY_BOUND as int);
                    assert(spre.len() * INK_XY_BOUND <= 0x4000_0000_0000) by (nonlinear_arith)
                        requires
                            0 <= spre.len() <= STROKE_SAMPLE_LIMIT,
                    ;
                    assert(spre.len() * (3 * INK_XY_BOUND) <= 0xC000_0000_0000) by (nonlinear_arith)
                        requires
                            0 <= spre.len() <= STROKE_SAMPLE_LIMIT,
                    ;
                    assert(pts.take(j + 1 as int).drop_last() =~= spre);
                    assert(pts.take(j + 1 as int).last() == pts[j as int]);
                }
                let p = stroke.points[j];
                let prev = stroke.points[j - 1];
                let d = seg_len_exec(prev, p);
                proof {
                    assert(pts.take(j + 1 as int)[j - 1 as int] == pts[j - 1 as int]);
                }
                s_sum_x = s_sum_x + p.x as i64;
                s_sum_y = s_sum_y + p.y as i64;
                if (p.x as i64) < s_min_x {
                    s_min_x = p.x as i64;
                }
                if (p.x as i64) > s_max_x {
                    s_max_x = p.x as i64;
                }
                if (p.y as i64) < s_min_y {
                    s_min_y = p.y as i64;
                }
                if (p.y as i64) > s_max_y {
                    s_max_y = p.y as i64;
                }
                s_len = s_len + d;
                j += 1;
            }
            proof {
                assert(pts.take(m as int) =~= pts);
                assert(self@.take(k + 1 as int).drop_last() =~= pre);
                assert(self@.take(k + 1 as int).last() == self@[k as int]);
                assert(self@[k as int].points == pts);
                lemma_sum_bounds(pts, INK_XY_BOUND as int);
                lemma_minmax_bounds(pts, INK_XY_BOUND as int);
                lemma_path_len_bound(pts, INK_XY_BOUND as int);
                assert(pts.len() * INK_XY_BOUND <= 0x4000_0000_0000) by (nonlinear_arith)
                    requires
                        0 <= pts.len() <= STROKE_SAMPLE_LIMIT,
                ;
                assert(pts.len() * (3 * INK_XY_BOUND) <= 0xC000_0000_0000) by (nonlinear_arith)
                    requires
                        0 <= pts.len() <= STROKE_SAMPLE_LIMIT,
                ;
            }
            if k == 0 {
                st.min_x = s_min_x;
                st.max_x = s_max_x;
                st.min_y = s_min_y;
                st.max_y = s_max_y;
            } else {
                if s_min_x < st.min_x {
                    st.min_x = s_min_x;
                }
                if s_max_x > st.max_x {
                    st.max_x = s_max_x;
                }
                if s_min_y < st.min_y {
                    st.min_y = s_min_y;
                }
                if s_max_y > st.max_y {
                    st.max_y = s_max_y;
                }
            }
            st.count = st.count + m as u64;
            st.sum_x = st.sum_x + s_sum_x;
            st.sum_y = st.sum_y + s_sum_y;
            st.length = st.length + s_len;
            k += 1;
        }
        proof {
            assert(self@.take(n as int) =~= self@);
        }
        st
    }

    /// The whole ink, moved rigidly by the given offset.
    pub fn translate(&self, dx: i64, dy: i64) -> (r: Ink)
        requires
            self.wf(),
            shift_in_bounds(self@, dx as int, dy as int),
        ensures
            r@ == ink_shift(self@, dx as int, dy as int),
            r.wf(),
    {
        let mut strokes: Vec<Stroke> = Vec::new();
        let n = self.strokes.len();
        let mut k: usize = 0;
        while k < n
            invariant
                k <= n,
                n == self.strokes.len(),
                self.wf(),
                shift_in_bounds(self@, dx as int, dy as int),
                strokes@.len() == k,
                forall|t: int|
                    0 <= t < k ==> #[trigger] strokes@[t]@ == stroke_shift(
                        self@[t],
                        dx as int,
                        dy as int,
                    ),
                forall|t: int| 0 <= t < k ==> stroke_wf(#[trigger] strokes@[t]@),
            decreases n - k,
        {
            proof {
                assert(self@[k as int] == self.strokes@[k as int]@);
                assert(stroke_wf(self@[k as int]));
                assert forall|j: int| 0 <= j < self@[k as int].points.len() implies {
                    let p = #[trigger] self@[k as int].points[j];
                    -INK_XY_BOUND <= p.x + dx <= INK_XY_BOUND && -INK_XY_BOUND <= p.y + dy
                        <= INK_XY_BOUND
                } by {
                    assert(0 <= k < self@.len() && 0 <= j < self@[k as int].points.len());
                }
            }
            let s = translate_stroke(&self.strokes[k], dx, dy);
            strokes.push(s);
            k += 1;
        }
        let r = Ink { strokes };
        proof {
            let e = ink_shift(self@, dx as int, dy as int);
            assert forall|t: int| 0 <= t < r@.len() implies r@[t] == e[t] by {
                assert(r@[t] == strokes@[t]@);
            }
            assert(r@ =~= e);
        }
        r
    }

    /// An identical copy of this ink.
    pub fn duplicate(&self) -> (r: Ink)
        requires
            self.wf(),
        ensures
            r@ == self@,
            r.wf(),
    {
        proof {
            assert forall|k: int, j: int|
                0 <= k < self@.len() && 0 <= j < self@[k].points.len() implies {
                let p = #[trigger] self@[k].points[j];
                -INK_XY_BOUND <= p.x + 0 <= INK_XY_BOUND && -INK_XY_BOUND <= p.y + 0
                    <= INK_XY_BOUND
            } by {
                assert(stroke_wf(self@[k]));
                assert(sample_within(self@[k].points[j], INK_XY_BOUND as int));
            }
        }
        let r = self.translate(0, 0);
        proof {
            let e = ink_shift(self@, 0, 0);
            assert forall|t: int| 0 <= t < self@.len() implies e[t] == self@[t] by {
                assert(e[t].points =~= self@[t].points);
                assert(e[t] =~~= self@[t]);
            }
            assert(r@ =~= self@);
        }
        r
    }
}

/// Integer square root by binary search.
pub fn isqrt(n: u64) -> (r: u64)
    ensures
        r == isqrt_spec(n as int),
{
    let mut lo: u64 = 0;
    let mut hi: u64 = 4294967296;
    while lo + 1 < hi
        invariant
            0 <= lo < hi <= 4294967296,
            (lo as int) * (lo as int) <= n as int,
            (hi as int) * (hi as int) > n as int,
        decreases hi - lo,
    {
        let mid = lo + (hi - lo) / 2;
        proof {
            assert((mid as int) * (mid as int) <= 0xFFFF_FFFE_0000_0001) by (nonlinear_arith)
                requires
                    0 <= mid <= 0xFFFF_FFFF,
            ;
        }
        if mid * mid <= n {
            lo = mid;
        } else {
            hi = mid;
        }
    }
    proof {
        assert((4294967296 as int) * (4294967296 as int) > n as int) by (nonlinear_arith)
            requires
                n <= u64::MAX,
        ;
        lemma_isqrt_unique(n as int, lo as int);
    }
    lo
}

} // verus!
