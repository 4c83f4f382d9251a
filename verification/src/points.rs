//! Normalized point-cloud shape representation and the nearest-template
//! search. An ink is resampled to a fixed number of points and normalized
//! either relative to its grid cell (for text recognition, where position
//! within the cell matters) or relative to its own centroid and extent (for
//! position-independent gesture recognition). Shape distance is the sum of
//! squared distances between corresponding points: a deterministic and
//! symmetric point-set distance.

use vstd::prelude::*;
use vstd::pervasive::VecAdditionalExecFns;
use crate::geom::{
    Sample, StrokeView, Ink, Metrics, sq, sum_x, sum_y, min_y, max_y, min_x, max_x, ink_count,
    ink_wf, stroke_wf, stroke_within, sample_within, floor_div_spec, floor_div, lemma_sum_bounds,
    lemma_minmax_bounds, lemma_singleton_stats, INK_XY_BOUND, STROKE_SAMPLE_LIMIT, STROKE_LIMIT,
};

verus! {

/// Every cloud holds exactly this many points.
pub const CLOUD_SIZE: usize = 32;

/// Normalized cloud coordinates are clamped to this bound.
pub const CLOUD_BOUND: i64 = 1048576;

/// Fixed-point scale of normalized cloud coordinates: this many units to one
/// grid cell.
pub const CLOUD_SCALE: i64 = 1024;

/// One point of a normalized cloud, in fixed-point cell-relative units.
#[derive(Clone, Copy, PartialEq, Eq, Structural, Debug)]
pub struct CloudPoint {
    pub x: i32,
    pub y: i32,
}

/// A fixed-size ordered point sequence derived from an ink, used for
/// shape-distance comparisons.
pub struct PointCloud {
    pub points: Vec<CloudPoint>,
}

impl View for PointCloud {
    type V = Seq<CloudPoint>;

    open spec fn view(&self) -> Seq<CloudPoint> {
        self.points@
    }
}

pub open spec fn cloud_point_ok(p: CloudPoint) -> bool {
    -CLOUD_BOUND <= p.x <= CLOUD_BOUND && -CLOUD_BOUND <= p.y <= CLOUD_BOUND
}

pub open spec fn cloud_wf(c: Seq<CloudPoint>) -> bool {
    c.len() == CLOUD_SIZE && forall|j: int| 0 <= j < c.len() ==> cloud_point_ok(#[trigger] c[j])
}

impl PointCloud {
    pub open spec fn wf(&self) -> bool {
        cloud_wf(self@)
    }
}

// ---- resampling ----

/// All samples of an ink, strokes concatenated in order.
pub open spec fn flat_of(i: Seq<StrokeView>) -> Seq<Sample>
    decreases i.len(),
{
    if i.len() == 0 {
        Seq::<Sample>::empty()
    } else {
        flat_of(i.drop_last()) + i.last().points
    }
}

pub proof fn lemma_flat_count(i: Seq<StrokeView>)
    ensures
        flat_of(i).len() == ink_count(i),
    decreases i.len(),
{
    if i.len() > 0 {
        lemma_flat_count(i.drop_last());
    }
}

/// Every flattened sample is a sample of some stroke.
pub proof fn lemma_flat_within(i: Seq<StrokeView>, b: int)
    requires
        forall|k: int| 0 <= k < i.len() ==> stroke_within(#[trigger] i[k], b),
    ensures
        forall|j: int| 0 <= j < flat_of(i).len() ==> sample_within(#[trigger] flat_of(i)[j], b),
    decreases i.len(),
{
    if i.len() > 0 {
        lemma_flat_within(i.drop_last(), b);
        assert forall|j: int| 0 <= j < flat_of(i).len() implies sample_within(
            #[trigger] flat_of(i)[j],
            b,
        ) by {
            let f0 = flat_of(i.drop_last());
            if j >= f0.len() {
                assert(flat_of(i)[j] == i.last().points[j - f0.len()]);
                assert(sample_within(i.last().points[j - f0.len()], b));
            }
        }
    }
}

/// Deterministic resampling to a fixed number of points: the samples at
/// evenly spaced indices of the concatenated strokes.
pub open spec fn resample_of(i: Seq<StrokeView>) -> Seq<Sample>
    recommends
        flat_of(i).len() >= 1,
{
    let f = flat_of(i);
    Seq::new(CLOUD_SIZE as nat, |k: int| f[k * (f.len() - 1) / (CLOUD_SIZE - 1)])
}

// ---- normalization ----

pub open spec fn clamp_cloud(v: int) -> int {
    if v < -CLOUD_BOUND {
        -CLOUD_BOUND as int
    } else if v > CLOUD_BOUND {
        CLOUD_BOUND as int
    } else {
        v
    }
}

/// A pixel coordinate snapped down to the grid of `g`-pixel steps anchored at
/// the baseline.
pub open spec fn snap_spec(v: int, base: int, g: int) -> int
    recommends
        g > 0,
{
    floor_div_spec(v - base, g) * g + base
}

/// Grid-relative normalization: the horizontal position is kept (cells
/// matter for text), the vertical position is recentered so that the snapped
/// vertical midline of the ink maps to the middle of a cell, and both axes
/// are scaled from pixels to cell-relative fixed-point units.
pub open spec fn grid_cloud_of(i: Seq<StrokeView>, h: int, w: int, base: int) -> Seq<CloudPoint>
    recommends
        flat_of(i).len() >= 1,
        8 <= h,
        1 <= w,
{
    let pts = resample_of(i);
    let g = h / 8;
    let lo = snap_spec(min_y(pts), base, g);
    let hi = snap_spec(max_y(pts), base, g);
    pts.map_values(
        |p: Sample|
            CloudPoint {
                x: clamp_cloud(floor_div_spec(p.x * CLOUD_SCALE, w)) as i32,
                y: clamp_cloud(
                    floor_div_spec((2 * p.y - lo - hi + h) * CLOUD_SCALE, 2 * w),
                ) as i32,
            },
    )
}

/// Position-independent normalization: recentered on the ink's own centroid
/// and scaled by its own extent.
pub open spec fn shape_cloud_of(i: Seq<StrokeView>) -> Seq<CloudPoint>
    recommends
        flat_of(i).len() >= 1,
{
    let pts = resample_of(i);
    let n = pts.len() as int;
    let cx = floor_div_spec(sum_x(pts), n);
    let cy = floor_div_spec(sum_y(pts), n);
    let ext_x = max_x(pts) - min_x(pts);
    let ext_y = max_y(pts) - min_y(pts);
    let ext = if ext_x > ext_y {
        ext_x
    } else {
        ext_y
    };
    let ext1 = if ext < 1 {
        1
    } else {
        ext
    };
    pts.map_values(
        |p: Sample|
            CloudPoint {
                x: clamp_cloud(floor_div_spec((p.x - cx) * CLOUD_SCALE, ext1)) as i32,
                y: clamp_cloud(floor_div_spec((p.y - cy) * CLOUD_SCALE, ext1)) as i32,
            },
    )
}

// ---- distance ----

/// The point-set distance: the sum of squared coordinate differences of
/// corresponding points.
pub open spec fn dist_of(a: Seq<CloudPoint>, b: Seq<CloudPoint>) -> int
    decreases a.len(),
{
    if a.len() == 0 || b.len() == 0 {
        0
    } else {
        sq(a.last().x - b.last().x) + sq(a.last().y - b.last().y) + dist_of(
            a.drop_last(),
            b.drop_last(),
        )
    }
}

/// The point-set distance is symmetric in its two arguments.
pub proof fn lemma_dist_symmetric(a: Seq<CloudPoint>, b: Seq<CloudPoint>)
    ensures
        dist_of(a, b) == dist_of(b, a),
    decreases a.len(),
{
    if a.len() != 0 && b.len() != 0 {
        lemma_dist_symmetric(a.drop_last(), b.drop_last());
        let dx = a.last().x - b.last().x;
        let dy = a.last().y - b.last().y;
        assert(dx * dx == (-dx) * (-dx) && dy * dy == (-dy) * (-dy)) by (nonlinear_arith);
        assert(sq(a.last().x - b.last().x) == sq(b.last().x - a.last().x));
        assert(sq(a.last().y - b.last().y) == sq(b.last().y - a.last().y));
    }
}

/// The point-set distance is never negative and grows by a bounded amount
/// with each point.
pub proof fn lemma_dist_bound(a: Seq<CloudPoint>, b: Seq<CloudPoint>)
    requires
        forall|j: int| 0 <= j < a.len() ==> cloud_point_ok(#[trigger] a[j]),
        forall|j: int| 0 <= j < b.len() ==> cloud_point_ok(#[trigger] b[j]),
        a.len() == b.len(),
    ensures
        0 <= dist_of(a, b) <= a.len() * (8 * CLOUD_BOUND * CLOUD_BOUND),
    decreases a.len(),
{
    let kk = 8 * CLOUD_BOUND * CLOUD_BOUND;
    if a.len() != 0 {
        lemma_dist_bound(a.drop_last(), b.drop_last());
        let dx = a.last().x - b.last().x;
        let dy = a.last().y - b.last().y;
        assert(0 <= dx * dx + dy * dy <= kk) by (nonlinear_arith)
            requires
                -2 * CLOUD_BOUND <= dx <= 2 * CLOUD_BOUND,
                -2 * CLOUD_BOUND <= dy <= 2 * CLOUD_BOUND,
                kk == 8 * CLOUD_BOUND * CLOUD_BOUND,
        ;
        assert((a.len() - 1) * kk + kk == a.len() * kk) by (nonlinear_arith);
    }
}

/// The distance between two clouds, exactly as `dist_of` states it.
pub fn cloud_distance(a: &PointCloud, b: &PointCloud) -> (r: u64)
    requires
        a.wf(),
        b.wf(),
    ensures
        r == dist_of(a@, b@),
{
    let mut acc: u64 = 0;
    let mut j: usize = 0;
    proof {
        assert(a@.take(0) =~= Seq::<CloudPoint>::empty());
        assert(b@.take(0) =~= Seq::<CloudPoint>::empty());
    }
    while j < CLOUD_SIZE
        invariant
            j <= CLOUD_SIZE,
            a.wf(),
            b.wf(),
            acc == dist_of(a@.take(j as int), b@.take(j as int)),
        decreases CLOUD_SIZE - j,
    {
        proof {
            assert(forall|t: int| 0 <= t < j ==> a@.take(j as int)[t] == a@[t]);
            assert(forall|t: int| 0 <= t < j ==> b@.take(j as int)[t] == b@[t]);
            lemma_dist_bound(a@.take(j as int), b@.take(j as int));
            assert(a@.take(j as int).len() * (8 * CLOUD_BOUND * CLOUD_BOUND) <= 0x1_0000_0000_0000)
                by (nonlinear_arith)
                requires
                    0 <= a@.take(j as int).len() <= 32,
            ;
            assert(a@.take(j + 1 as int).drop_last() =~= a@.take(j as int));
            assert(b@.take(j + 1 as int).drop_last() =~= b@.take(j as int));
        }
        let pa = a.points[j];
        let pb = b.points[j];
        let dx = pa.x as i64 - pb.x as i64;
        let dy = pa.y as i64 - pb.y as i64;
        proof {
            assert(0 <= dx * dx + dy * dy <= 8 * CLOUD_BOUND * CLOUD_BOUND && 0 <= dx * dx && 0
                <= dy * dy) by (nonlinear_arith)
                requires
                    -2 * CLOUD_BOUND <= dx <= 2 * CLOUD_BOUND,
                    -2 * CLOUD_BOUND <= dy <= 2 * CLOUD_BOUND,
            ;
        }
        acc = acc + (dx * dx + dy * dy) as u64;
        j += 1;
    }
    proof {
        assert(a@.take(CLOUD_SIZE as int) =~= a@);
        assert(b@.take(CLOUD_SIZE as int) =~= b@);
    }
    acc
}

// ---- building clouds from ink ----

/// A non-empty well-formed ink flattens to at least one sample.
pub proof fn lemma_ink_count_pos(i: Seq<StrokeView>)
    requires
        i.len() >= 1,
        forall|k: int| 0 <= k < i.len() ==> stroke_wf(#[trigger] i[k]),
    ensures
        ink_count(i) >= 1,
    decreases i.len(),
{
    assert(stroke_wf(i[i.len() - 1]));
    if i.len() > 1 {
        assert(forall|k: int| 0 <= k < i.len() - 1 ==> i.drop_last()[k] == i[k]);
        lemma_ink_count_pos(i.drop_last());
    } else {
        assert(i.drop_last() =~= Seq::<StrokeView>::empty());
        assert(ink_count(Seq::<StrokeView>::empty()) == 0);
    }
}

fn flatten_ink(ink: &Ink) -> (r: Vec<Sample>)
    requires
        ink.wf(),
    ensures
        r@ == flat_of(ink@),
        r@.len() == ink_count(ink@),
        r@.len() <= 0x100_0000,
        forall|j: int| 0 <= j < r@.len() ==> sample_within(#[trigger] r@[j], INK_XY_BOUND as int),
{
    let mut flat: Vec<Sample> = Vec::new();
    let n = ink.strokes.len();
    let mut k: usize = 0;
    proof {
        assert(ink@.take(0) =~= Seq::<StrokeView>::empty());
    }
    while k < n
        invariant
            k <= n,
            n == ink.strokes.len(),
            ink.wf(),
            flat@ == flat_of(ink@.take(k as int)),
            flat@.len() == ink_count(ink@.take(k as int)),
            flat@.len() <= k * STROKE_SAMPLE_LIMIT,
        decreases n - k,
    {
        proof {
            assert(ink@[k as int] == ink.strokes@[k as int]@);
            assert(stroke_wf(ink@[k as int]));
            assert(ink@.take(k + 1 as int).drop_last() =~= ink@.take(k as int));
            assert(ink@.take(k + 1 as int).last() == ink@[k as int]);
        }
        let stroke = &ink.strokes[k];
        let m = stroke.points.len();
        let ghost base = flat@;
        let mut j: usize = 0;
        while j < m
            invariant
                j <= m,
                m == stroke.points.len(),
                flat@ == base + stroke@.points.take(j as int),
            decreases m - j,
        {
            flat.push(stroke.points[j]);
            proof {
                assert(base + stroke@.points.take(j + 1 as int) =~= (base + stroke@.points.take(
                    j as int,
                )).push(stroke@.points[j as int]));
            }
            j += 1;
        }
        proof {
            assert(stroke@.points.take(m as int) =~= stroke@.points);
            assert(flat@ =~= flat_of(ink@.take(k + 1 as int)));
            assert((k + 1) * STROKE_SAMPLE_LIMIT == k * STROKE_SAMPLE_LIMIT + STROKE_SAMPLE_LIMIT)
                by (nonlinear_arith);
        }
        k += 1;
    }
    proof {
        assert(ink@.take(n as int) =~= ink@);
        assert(n * STROKE_SAMPLE_LIMIT <= 0x100_0000) by (nonlinear_arith)
            requires
                0 <= n <= STROKE_LIMIT,
        ;
        lemma_flat_within(ink@, INK_XY_BOUND as int);
    }
    flat
}

/// Pick the fixed-size resampling of an ink's samples.
fn resample(ink: &Ink) -> (r: Vec<Sample>)
    requires
        ink.wf(),
        ink@.len() >= 1,
    ensures
        r@ == resample_of(ink@),
        r@.len() == CLOUD_SIZE,
        forall|j: int| 0 <= j < r@.len() ==> sample_within(#[trigger] r@[j], INK_XY_BOUND as int),
{
    let flat = flatten_ink(ink);
    proof {
        lemma_ink_count_pos(ink@);
    }
    let m = flat.len();
    let mut out: Vec<Sample> = Vec::new();
    let mut k: usize = 0;
    while k < CLOUD_SIZE
        invariant
            k <= CLOUD_SIZE,
            m == flat@.len(),
            1 <= m <= 0x100_0000,
            flat@ == flat_of(ink@),
            out@.len() == k,
            forall|t: int| 0 <= t < k ==> #[trigger] out@[t] == flat@[t * (m - 1) / (CLOUD_SIZE
                - 1)],
        decreases CLOUD_SIZE - k,
    {
        proof {
            assert(k * (m - 1) <= 31 * (m - 1) <= 31 * 0x100_0000) by (nonlinear_arith)
                requires
                    0 <= k <= 31,
                    1 <= m <= 0x100_0000,
            ;
            assert(31 * (m - 1) / 31 == m - 1) by (nonlinear_arith)
                requires
                    m >= 1,
            ;
            assert(k * (m - 1) / 31 <= 31 * (m - 1) / 31) by (nonlinear_arith)
                requires
                    0 <= k * (m - 1) <= 31 * (m - 1),
            ;
        }
        let idx = k * (m - 1) / (CLOUD_SIZE - 1);
        out.push(flat[idx]);
        k += 1;
    }
    proof {
        assert forall|t: int| 0 <= t < out@.len() implies sample_within(
            #[trigger] out@[t],
            INK_XY_BOUND as int,
        ) by {
            assert(t * (m - 1) <= 31 * (m - 1)) by (nonlinear_arith)
                requires
                    0 <= t <= 31,
                    m >= 1,
            ;
            assert(31 * (m - 1) / 31 == m - 1) by (nonlinear_arith)
                requires
                    m >= 1,
            ;
            assert(0 <= t * (m - 1) / 31 <= 31 * (m - 1) / 31) by (nonlinear_arith)
                requires
                    0 <= t * (m - 1) <= 31 * (m - 1),
            ;
            assert(out@[t] == flat@[t * (m - 1) / 31]);
        }
        assert(out@ =~= resample_of(ink@));
    }
    out
}

/// The coordinate sums and bounding box of a sample list.
fn vec_stats(v: &Vec<Sample>) -> (r: (i64, i64, i64, i64, i64, i64))
    requires
        1 <= v@.len() <= 0x100_0000,
        forall|j: int| 0 <= j < v@.len() ==> sample_within(#[trigger] v@[j], INK_XY_BOUND as int),
    ensures
        r.0 == sum_x(v@),
        r.1 == sum_y(v@),
        r.2 == min_x(v@),
        r.3 == max_x(v@),
        r.4 == min_y(v@),
        r.5 == max_y(v@),
{
    let p0 = v[0];
    let mut sx: i64 = p0.x as i64;
    let mut sy: i64 = p0.y as i64;
    let mut mnx: i64 = p0.x as i64;
    let mut mxx: i64 = p0.x as i64;
    let mut mny: i64 = p0.y as i64;
    let mut mxy: i64 = p0.y as i64;
    let n = v.len();
    let mut j: usize = 1;
    proof {
        assert(v@.take(1) =~= seq![v@[0]]);
        lemma_singleton_stats(v@[0]);
    }
    while j < n
        invariant
            1 <= j <= n,
            n == v@.len(),
            n <= 0x100_0000,
            forall|t: int| 0 <= t < v@.len() ==> sample_within(#[trigger] v@[t], INK_XY_BOUND as int),
            sx == sum_x(v@.take(j as int)),
            sy == sum_y(v@.take(j as int)),
            mnx == min_x(v@.take(j as int)),
            mxx == max_x(v@.take(j as int)),
            mny == min_y(v@.take(j as int)),
            mxy == max_y(v@.take(j as int)),
        decreases n - j,
    {
        let ghost pre = v@.take(j as int);
        proof {
            assert(forall|t: int| 0 <= t < pre.len() ==> pre[t] == v@[t]);
            lemma_sum_bounds(pre, INK_XY_BOUND as int);
            lemma_minmax_bounds(pre, INK_XY_BOUND as int);
            assert(pre.len() * INK_XY_BOUND <= 0x100_0000 * INK_XY_BOUND) by (nonlinear_arith)
                requires
                    0 <= pre.len() <= 0x100_0000,
            ;
            assert(v@.take(j + 1 as int).drop_last() =~= pre);
            assert(v@.take(j + 1 as int).last() == v@[j as int]);
        }
        let p = v[j];
        sx = sx + p.x as i64;
        sy = sy + p.y as i64;
        if (p.x as i64) < mnx {
            mnx = p.x as i64;
        }
        if (p.x as i64) > mxx {
            mxx = p.x as i64;
        }
        if (p.y as i64) < mny {
            mny = p.y as i64;
        }
        if (p.y as i64) > mxy {
            mxy = p.y as i64;
        }
        j += 1;
    }
    proof {
        assert(v@.take(n as int) =~= v@);
    }
    (sx, sy, mnx, mxx, mny, mxy)
}

/// Clamp a normalized coordinate into the cloud bound.
fn clamp_cloud_exec(v: i64) -> (r: i64)
    ensures
        r == clamp_cloud(v as int),
{
    if v < -CLOUD_BOUND {
        -CLOUD_BOUND
    } else if v > CLOUD_BOUND {
        CLOUD_BOUND
    } else {
        v
    }
}

/// Snap a pixel coordinate down to the `g`-pixel grid anchored at the
/// baseline.
fn snap(v: i64, base: i64, g: i64) -> (r: i64)
    requires
        1 <= g <= 4096,
        0 <= base <= 4096,
        -INK_XY_BOUND <= v <= INK_XY_BOUND,
    ensures
        r == snap_spec(v as int, base as int, g as int),
        -2 * INK_XY_BOUND <= r <= 2 * INK_XY_BOUND,
{
    let q = floor_div(v - base, g);
    proof {
        let n = v as int - base as int;
        let gg = g as int;
        broadcast use vstd::arithmetic::div_mod::lemma_fundamental_div_mod;
        broadcast use vstd::arithmetic::div_mod::lemma_mod_bound;

        assert(n == gg * (n / gg) + n % gg);
        assert(0 <= n % gg < gg);
    }
    q * g + base
}

impl PointCloud {
    /// Grid-relative cloud: used for text recognition, where the position of
    /// a mark within its cell is meaningful.
    pub fn from_ink_grid(ink: &Ink, m: &Metrics) -> (r: PointCloud)
        requires
            ink.wf(),
            ink@.len() >= 1,
            m.wf(),
        ensures
            r@ == grid_cloud_of(ink@, m.height as int, m.width as int, m.baseline as int),
            r.wf(),
    {
        let pts = resample(ink);
        let (_sx, _sy, _mnx, _mxx, mny, mxy) = vec_stats(&pts);
        proof {
            lemma_minmax_bounds(pts@, INK_XY_BOUND as int);
        }
        let g = (m.height / 8) as i64;
        let lo = snap(mny, m.baseline as i64, g);
        let hi = snap(mxy, m.baseline as i64, g);
        let w = m.width as i64;
        let h = m.height as i64;
        let ghost target = grid_cloud_of(ink@, m.height as int, m.width as int, m.baseline as int);
        let mut out: Vec<CloudPoint> = Vec::new();
        let mut j: usize = 0;
        while j < CLOUD_SIZE
            invariant
                j <= CLOUD_SIZE,
                pts@.len() == CLOUD_SIZE,
                pts@ == resample_of(ink@),
                forall|t: int|
                    0 <= t < pts@.len() ==> sample_within(#[trigger] pts@[t], INK_XY_BOUND as int),
                target == grid_cloud_of(ink@, m.height as int, m.width as int, m.baseline as int),
                target.len() == CLOUD_SIZE,
                lo == snap_spec(min_y(pts@), m.baseline as int, (m.height / 8) as int),
                hi == snap_spec(max_y(pts@), m.baseline as int, (m.height / 8) as int),
                -2 * INK_XY_BOUND <= lo <= 2 * INK_XY_BOUND,
                -2 * INK_XY_BOUND <= hi <= 2 * INK_XY_BOUND,
                w == m.width as i64,
                h == m.height as i64,
                m.wf(),
                out@.len() == j,
                forall|t: int| 0 <= t < j ==> #[trigger] out@[t] == target[t],
            decreases CLOUD_SIZE - j,
        {
            let p = pts[j];
            let nx = clamp_cloud_exec(floor_div(p.x as i64 * CLOUD_SCALE, w));
            let ny = clamp_cloud_exec(
                floor_div((2 * p.y as i64 - lo - hi + h) * CLOUD_SCALE, 2 * w),
            );
            out.push(CloudPoint { x: nx as i32, y: ny as i32 });
            j += 1;
        }
        proof {
            assert(out@ =~= target);
        }
        PointCloud { points: out }
    }

    /// Position-independent cloud: used for gesture recognition, where only
    /// the shape matters.
    pub fn from_ink_shape(ink: &Ink) -> (r: PointCloud)
        requires
            ink.wf(),
            ink@.len() >= 1,
        ensures
            r@ == shape_cloud_of(ink@),
            r.wf(),
    {
        let pts = resample(ink);
        let (sx, sy, mnx, mxx, mny, mxy) = vec_stats(&pts);
        proof {
            lemma_sum_bounds(pts@, INK_XY_BOUND as int);
            lemma_minmax_bounds(pts@, INK_XY_BOUND as int);
        }
        let cx = floor_div(sx, CLOUD_SIZE as i64);
        let cy = floor_div(sy, CLOUD_SIZE as i64);
        let ext_x = mxx - mnx;
        let ext_y = mxy - mny;
        let ext = if ext_x > ext_y {
            ext_x
        } else {
            ext_y
        };
        let ext1 = if ext < 1 {
            1
        } else {
            ext
        };
        proof {
            let n = pts@.len() as int;
            broadcast use vstd::arithmetic::div_mod::lemma_fundamental_div_mod;
            broadcast use vstd::arithmetic::div_mod::lemma_mod_bound;

            assert(sx as int == n * (sx as int / n) + (sx as int) % n);
            assert(sy as int == n * (sy as int / n) + (sy as int) % n);
            assert(n * (sx as int / n) == sx - (sx as int) % n);
            assert(-32 * INK_XY_BOUND <= sx <= 32 * INK_XY_BOUND) by {
                lemma_sum_bounds(pts@, INK_XY_BOUND as int);
            }
            assert(-32 * INK_XY_BOUND <= sy <= 32 * INK_XY_BOUND) by {
                lemma_sum_bounds(pts@, INK_XY_BOUND as int);
            }
            assert(-2 * INK_XY_BOUND <= cx <= 2 * INK_XY_BOUND) by (nonlinear_arith)
                requires
                    n == 32,
                    -32 * INK_XY_BOUND <= sx <= 32 * INK_XY_BOUND,
                    n * (cx as int) == sx - (sx as int) % n,
                    0 <= (sx as int) % n < n,
                    cx == floor_div_spec(sx as int, n),
            ;
            assert(-2 * INK_XY_BOUND <= cy <= 2 * INK_XY_BOUND) by (nonlinear_arith)
                requires
                    n == 32,
                    -32 * INK_XY_BOUND <= sy <= 32 * INK_XY_BOUND,
                    n * (cy as int) == sy - (sy as int) % n,
                    0 <= (sy as int) % n < n,
                    cy == floor_div_spec(sy as int, n),
            ;
        }
        let ghost target = shape_cloud_of(ink@);
        let mut out: Vec<CloudPoint> = Vec::new();
        let mut j: usize = 0;
        while j < CLOUD_SIZE
            invariant
                j <= CLOUD_SIZE,
                pts@.len() == CLOUD_SIZE,
                pts@ == resample_of(ink@),
                forall|t: int|
                    0 <= t < pts@.len() ==> sample_within(#[trigger] pts@[t], INK_XY_BOUND as int),
                target == shape_cloud_of(ink@),
                target.len() == CLOUD_SIZE,
                cx == floor_div_spec(sum_x(pts@), pts@.len() as int),
                cy == floor_div_spec(sum_y(pts@), pts@.len() as int),
                -2 * INK_XY_BOUND <= cx <= 2 * INK_XY_BOUND,
                -2 * INK_XY_BOUND <= cy <= 2 * INK_XY_BOUND,
                ext1 == ({
                    let ex = max_x(pts@) - min_x(pts@);
                    let ey = max_y(pts@) - min_y(pts@);
                    let e = if ex > ey {
                        ex
                    } else {
                        ey
                    };
                    if e < 1 {
                        1int
                    } else {
                        e
                    }
                }),
                1 <= ext1 <= 2 * INK_XY_BOUND,
                out@.len() == j,
                forall|t: int| 0 <= t < j ==> #[trigger] out@[t] == target[t],
            decreases CLOUD_SIZE - j,
        {
            let p = pts[j];
            let nx = clamp_cloud_exec(floor_div((p.x as i64 - cx) * CLOUD_SCALE, ext1));
            let ny = clamp_cloud_exec(floor_div((p.y as i64 - cy) * CLOUD_SCALE, ext1));
            out.push(CloudPoint { x: nx as i32, y: ny as i32 });
            j += 1;
        }
        proof {
            assert(out@ =~= target);
        }
        PointCloud { points: out }
    }
}

// ---- nearest-template search ----

/// The smallest distance from the query to any of the templates.
pub open spec fn min_dist(q: Seq<CloudPoint>, ts: Seq<Seq<CloudPoint>>) -> int
    recommends
        ts.len() >= 1,
    decreases ts.len(),
{
    if ts.len() <= 1 {
        dist_of(q, ts[0])
    } else {
        let m = min_dist(q, ts.drop_last());
        let l = dist_of(q, ts.last());
        if l < m {
            l
        } else {
            m
        }
    }
}

/// The first index at which the smallest distance is reached.
pub open spec fn min_index(q: Seq<CloudPoint>, ts: Seq<Seq<CloudPoint>>) -> int
    recommends
        ts.len() >= 1,
    decreases ts.len(),
{
    if ts.len() <= 1 {
        0
    } else {
        let m = min_dist(q, ts.drop_last());
        let l = dist_of(q, ts.last());
        if l < m {
            ts.len() - 1
        } else {
            min_index(q, ts.drop_last())
        }
    }
}

/// The nearest-template index is valid, reaches the minimum, and is the
/// first index to do so.
pub proof fn lemma_min_props(q: Seq<CloudPoint>, ts: Seq<Seq<CloudPoint>>)
    requires
        ts.len() >= 1,
    ensures
        0 <= min_index(q, ts) < ts.len(),
        dist_of(q, ts[min_index(q, ts)]) == min_dist(q, ts),
        forall|j: int| 0 <= j < ts.len() ==> dist_of(q, #[trigger] ts[j]) >= min_dist(q, ts),
        forall|j: int| 0 <= j < min_index(q, ts) ==> dist_of(q, #[trigger] ts[j]) > min_dist(q, ts),
    decreases ts.len(),
{
    if ts.len() > 1 {
        lemma_min_props(q, ts.drop_last());
        assert(forall|j: int| 0 <= j < ts.len() - 1 ==> ts.drop_last()[j] == ts[j]);
    }
}

/// The nearest template to the query, by exhaustive comparison: returns the
/// first index reaching the smallest distance, and that distance.
pub fn recognize(query: &PointCloud, templates: &Vec<PointCloud>) -> (r: (usize, u64))
    requires
        query.wf(),
        templates@.len() >= 1,
        forall|t: int| 0 <= t < templates@.len() ==> cloud_wf(#[trigger] templates@[t]@),
    ensures
        ({
            let ts = templates@.map_values(|c: PointCloud| c@);
            r.0 == min_index(query@, ts) && r.1 == min_dist(query@, ts) && r.0 < templates@.len()
        }),
{
    let ghost ts = templates@.map_values(|c: PointCloud| c@);
    let mut best = cloud_distance(query, &templates[0]);
    let mut bi: usize = 0;
    let n = templates.len();
    let mut j: usize = 1;
    proof {
        assert(ts.take(1) =~= seq![ts[0]]);
    }
    while j < n
        invariant
            1 <= j <= n,
            n == templates@.len(),
            query.wf(),
            forall|t: int| 0 <= t < templates@.len() ==> cloud_wf(#[trigger] templates@[t]@),
            ts == templates@.map_values(|c: PointCloud| c@),
            bi < j,
            best == min_dist(query@, ts.take(j as int)),
            bi == min_index(query@, ts.take(j as int)),
        decreases n - j,
    {
        proof {
            assert(ts.take(j + 1 as int).drop_last() =~= ts.take(j as int));
            assert(ts.take(j + 1 as int).last() == ts[j as int]);
        }
        let d = cloud_distance(query, &templates[j]);
        if d < best {
            best = d;
            bi = j;
        }
        j += 1;
    }
    proof {
        assert(ts.take(n as int) =~= ts);
    }
    (bi, best)
}

/// A sequence with its first element and element `i` exchanged.
pub open spec fn swap01<T>(s: Seq<T>, i: int) -> Seq<T>
    recommends
        0 <= i < s.len(),
{
    s.update(0, s[i]).update(i, s[0])
}

/// The full effect of one `best_match` call on a recognizer's shapes and
/// characters: with no templates nothing changes and nothing is returned;
/// otherwise the nearest template moves to the front and its character is
/// returned when its distance is within the threshold.
pub open spec fn bm_tr(
    ts: Seq<Seq<CloudPoint>>,
    cs: Seq<char>,
    q: Seq<CloudPoint>,
    thr: int,
) -> (Seq<Seq<CloudPoint>>, Seq<char>, Option<char>) {
    if ts.len() == 0 {
        (ts, cs, None::<char>)
    } else {
        let i = min_index(q, ts);
        let d = min_dist(q, ts);
        (
            swap01(ts, i),
            swap01(cs, i),
            if d <= thr {
                Some(cs[i])
            } else {
                None::<char>
            },
        )
    }
}

/// A set of templates and the character each one stands for, searched by
/// shape distance. Good matches are moved to the front of the list; the
/// reordering never changes which character wins, only the scan order.
pub struct CharRecognizer {
    pub templates: Vec<PointCloud>,
    pub chars: Vec<char>,
}

impl CharRecognizer {
    pub open spec fn wf(&self) -> bool {
        self.templates@.len() == self.chars@.len() && forall|t: int|
            0 <= t < self.templates@.len() ==> cloud_wf(#[trigger] self.templates@[t]@)
    }

    /// The template shapes, as plain point sequences.
    pub open spec fn tviews(&self) -> Seq<Seq<CloudPoint>> {
        self.templates@.map_values(|c: PointCloud| c@)
    }

    /// A recognizer over the given (shape, character) pairs.
    pub fn new(input: Vec<(PointCloud, char)>) -> (r: CharRecognizer)
        requires
            forall|t: int| 0 <= t < input@.len() ==> cloud_wf(#[trigger] input@[t].0@),
        ensures
            r.wf(),
            r.tviews() == input@.map_values(|p: (PointCloud, char)| p.0@),
            r.chars@ == input@.map_values(|p: (PointCloud, char)| p.1),
    {
        let mut templates: Vec<PointCloud> = Vec::new();
        let mut chars: Vec<char> = Vec::new();
        let mut input = input;
        let n = input.len();
        let ghost iv = input@;
        let mut j: usize = 0;
        while j < n
            invariant
                j <= n,
                n == iv.len(),
                input@ == iv.skip(j as int),
                templates@.len() == j,
                chars@.len() == j,
                forall|t: int| 0 <= t < iv.len() ==> cloud_wf(#[trigger] iv[t].0@),
                forall|t: int| 0 <= t < j ==> #[trigger] templates@[t]@ == iv[t].0@,
                forall|t: int| 0 <= t < j ==> #[trigger] chars@[t] == iv[t].1,
            decreases n - j,
        {
            proof {
                assert(iv.skip(j as int)[0] == iv[j as int]);
                assert(iv.skip(j as int).skip(1) =~= iv.skip(j + 1 as int));
            }
            let (p, c) = input.remove(0);
            templates.push(p);
            chars.push(c);
            j += 1;
        }
        let r = CharRecognizer { templates, chars };
        proof {
            assert(r.tviews() =~= iv.map_values(|p: (PointCloud, char)| p.0@));
            assert(r.chars@ =~= iv.map_values(|p: (PointCloud, char)| p.1));
        }
        r
    }

    /// Move the template at `index` (and its character) to the front, so
    /// that recent good matches are tried early.
    pub fn promote(&mut self, index: usize)
        requires
            old(self).wf(),
        ensures
            final(self).wf(),
            index == 0 || index >= old(self).templates@.len() ==> *final(self) == *old(self),
            0 < index < old(self).templates@.len() ==> {
                &&& final(self).templates@ == old(self).templates@.update(
                    0,
                    old(self).templates@[index as int],
                ).update(index as int, old(self).templates@[0])
                &&& final(self).chars@ == old(self).chars@.update(
                    0,
                    old(self).chars@[index as int],
                ).update(index as int, old(self).chars@[0])
            },
    {
        if index == 0 || index >= self.templates.len() {
            return ;
        }
        let mut tmp = PointCloud { points: Vec::new() };
        self.templates.set_and_swap(index, &mut tmp);
        self.templates.set_and_swap(0, &mut tmp);
        self.templates.set_and_swap(index, &mut tmp);
        let mut c = ' ';
        self.chars.set_and_swap(index, &mut c);
        self.chars.set_and_swap(0, &mut c);
        self.chars.set_and_swap(index, &mut c);
        proof {
            assert(final(self).templates@ =~= old(self).templates@.update(
                0,
                old(self).templates@[index as int],
            ).update(index as int, old(self).templates@[0]));
            assert(final(self).chars@ =~= old(self).chars@.update(
                0,
                old(self).chars@[index as int],
            ).update(index as int, old(self).chars@[0]));
        }
    }

    /// The character of the nearest template, unless there are no templates
    /// at all or the nearest one is farther than the threshold. The winning
    /// template moves to the front of the list.
    pub fn best_match(&mut self, query: &PointCloud, threshold: u64) -> (r: Option<char>)
        requires
            old(self).wf(),
            query.wf(),
        ensures
            final(self).wf(),
            ({
                let (t2, c2, r2) = bm_tr(
                    old(self).tviews(),
                    old(self).chars@,
                    query@,
                    threshold as int,
                );
                final(self).tviews() == t2 && final(self).chars@ == c2 && r == r2
            }),
            old(self).templates@.len() == 0 ==> r is None && *final(self) == *old(self),
            old(self).templates@.len() >= 1 ==> {
                let ts = old(self).tviews();
                let i = min_index(query@, ts);
                let d = min_dist(query@, ts);
                &&& r == (if d <= threshold {
                    Some(old(self).chars@[i])
                } else {
                    None::<char>
                })
                &&& final(self).templates@ == old(self).templates@.update(
                    0,
                    old(self).templates@[i],
                ).update(i, old(self).templates@[0])
                &&& final(self).chars@ == old(self).chars@.update(0, old(self).chars@[i]).update(
                    i,
                    old(self).chars@[0],
                )
            },
    {
        if self.templates.len() == 0 {
            return None;
        }
        proof {
            assert forall|t: int| 0 <= t < self.templates@.len() implies cloud_wf(
                #[trigger] self.templates@[t]@,
            ) by {}
        }
        let (best, score) = recognize(query, &self.templates);
        proof {
            lemma_min_props(query@, self.tviews());
        }
        self.promote(best);
        proof {
            if best == 0 {
                assert(final(self).templates@ =~= old(self).templates@.update(
                    0,
                    old(self).templates@[0],
                ).update(0, old(self).templates@[0]));
                assert(final(self).chars@ =~= old(self).chars@.update(
                    0,
                    old(self).chars@[0],
                ).update(0, old(self).chars@[0]));
            }
        }
        if score > threshold {
            None
        } else {
            Some(self.chars[0])
        }
    }
}

} // verus!
