//! Classifying a captured ink into a typed gesture, and splitting multi-glyph
//! ink into per-column tokens. All cell-relative ratio tests are exact
//! integer comparisons on the ink's pixel coordinates.

use vstd::prelude::*;
use crate::geom::{
    Sample, Stroke, StrokeView, Ink, Metrics, sum_x, sum_y, min_x, max_x, min_y, max_y, ink_count,
    ink_sum_x, ink_sum_y, ink_min_x, ink_max_x, ink_min_y, ink_max_y, ink_len_of, ink_wf,
    stroke_wf, ink_within, stroke_within, sample_within, ink_shift, stroke_shift, sample_shift,
    shift_in_bounds,
    floor_div_spec, round_div_spec, floor_div, round_div, translate_stroke, lemma_sum_bounds,
    lemma_minmax_bounds, lemma_ink_aggregate_bounds, INK_XY_BOUND, RAW_XY_BOUND, CLASSIFY_XY_BOUND,
    TIME_BOUND, STROKE_SAMPLE_LIMIT, STROKE_LIMIT,
};
use crate::text_buffer::Coord;
use crate::text_window::{Selection, SelectionView};

verus! {

pub open spec fn absi(v: int) -> int {
    if v < 0 {
        -v
    } else {
        v
    }
}

/// A stroke's horizontal center, as the exact rational `cnum / cden` in cell
/// units, clamped to be non-negative.
pub open spec fn cnum(s: StrokeView) -> int {
    if sum_x(s.points) < 0 {
        0
    } else {
        sum_x(s.points)
    }
}

pub open spec fn cden(s: StrokeView, w: int) -> int {
    s.points.len() * w
}

/// The column boundary nearest to the stroke's center.
pub open spec fn cround(s: StrokeView, w: int) -> int {
    round_div_spec(cnum(s), cden(s, w))
}

/// A stroke is unambiguous when its center is more than a fifth of a cell
/// away from the nearest column boundary.
pub open spec fn is_unamb(s: StrokeView, w: int) -> bool {
    5 * absi(cnum(s) - cround(s, w) * cden(s, w)) > cden(s, w)
}

/// The column an unambiguous stroke belongs to: the whole part of its center.
pub open spec fn floor_col(s: StrokeView, w: int) -> int {
    floor_div_spec(cnum(s), cden(s, w))
}

/// Basic facts about rounding division of non-negative values.
pub proof fn lemma_round_div_bounds(n: int, d: int)
    requires
        n >= 0,
        d > 0,
    ensures
        0 <= round_div_spec(n, d),
        round_div_spec(n, d) * d <= n + d,
    decreases 0int,
{
    let q = (2 * n + d) / (2 * d);
    broadcast use vstd::arithmetic::div_mod::lemma_fundamental_div_mod;
    broadcast use vstd::arithmetic::div_mod::lemma_mod_bound;

    assert(2 * n + d == 2 * d * q + (2 * n + d) % (2 * d));
    assert(0 <= (2 * n + d) % (2 * d) < 2 * d);
    assert(q >= 0) by (nonlinear_arith)
        requires
            2 * n + d == 2 * d * q + (2 * n + d) % (2 * d),
            0 <= (2 * n + d) % (2 * d) < 2 * d,
            n >= 0,
            d > 0,
    ;
    assert(q * d <= n + d) by (nonlinear_arith)
        requires
            2 * n + d == 2 * d * q + (2 * n + d) % (2 * d),
            0 <= (2 * n + d) % (2 * d),
            d > 0,
    ;
}

/// Floor division of a non-negative value is bounded by the value.
pub proof fn lemma_floor_div_bounds(n: int, d: int)
    requires
        n >= 0,
        d > 0,
    ensures
        0 <= floor_div_spec(n, d),
        floor_div_spec(n, d) * d <= n,
    decreases 0int,
{
    let q = n / d;
    broadcast use vstd::arithmetic::div_mod::lemma_fundamental_div_mod;
    broadcast use vstd::arithmetic::div_mod::lemma_mod_bound;

    assert(n == d * q + n % d);
    assert(0 <= n % d < d);
    assert(q >= 0 && q * d <= n) by (nonlinear_arith)
        requires
            n == d * q + n % d,
            0 <= n % d < d,
            n >= 0,
            d > 0,
    ;
}

/// The center data of one stroke: its clamped numerator, denominator,
/// rounded column boundary, ambiguity, and whole-part column.
fn stroke_center(s: &Stroke, w: i64) -> (r: (i64, i64, i64, bool, i64))
    requires
        stroke_wf(s@),
        1 <= w <= 4096,
    ensures
        r.0 == cnum(s@),
        r.1 == cden(s@, w as int),
        r.2 == cround(s@, w as int),
        r.3 == is_unamb(s@, w as int),
        r.4 == floor_col(s@, w as int),
        0 <= r.2,
        r.2 * r.1 <= r.0 + r.1,
        0 <= r.4,
        r.4 * r.1 <= r.0,
        r.0 <= 0x800_0000_0000,
        1 <= r.1 <= 0x100_0000,
{
    let n = s.points.len();
    let mut sx: i64 = 0;
    let mut j: usize = 0;
    proof {
        assert(s@.points.take(0) =~= Seq::<Sample>::empty());
    }
    while j < n
        invariant
            j <= n,
            n == s@.points.len(),
            stroke_wf(s@),
            sx == sum_x(s@.points.take(j as int)),
        decreases n - j,
    {
        proof {
            let pre = s@.points.take(j as int);
            assert(forall|t: int| 0 <= t < pre.len() ==> pre[t] == s@.points[t]);
            lemma_sum_bounds(pre, INK_XY_BOUND as int);
            assert(pre.len() * INK_XY_BOUND <= 0x1000 * INK_XY_BOUND) by (nonlinear_arith)
                requires
                    0 <= pre.len() <= 0x1000,
            ;
            assert(s@.points.take(j + 1 as int).drop_last() =~= pre);
            assert(s@.points.take(j + 1 as int).last() == s@.points[j as int]);
        }
        sx = sx + s.points[j].x as i64;
        j += 1;
    }
    proof {
        assert(s@.points.take(n as int) =~= s@.points);
        lemma_sum_bounds(s@.points, INK_XY_BOUND as int);
        assert(s@.points.len() * INK_XY_BOUND <= 0x1000 * INK_XY_BOUND) by (nonlinear_arith)
            requires
                0 <= s@.points.len() <= 0x1000,
        ;
    }
    let num = if sx < 0 {
        0
    } else {
        sx
    };
    proof {
        assert(1 <= (n as int) * (w as int) <= 0x100_0000) by (nonlinear_arith)
            requires
                1 <= n <= 0x1000,
                1 <= w <= 4096,
        ;
    }
    let den = (n as i64) * w;
    proof {
        lemma_round_div_bounds(num as int, den as int);
        lemma_floor_div_bounds(num as int, den as int);
    }
    let r = round_div(num, den);
    let fc = num / den;
    let diff = num - r * den;
    let adiff = if diff < 0 {
        -diff
    } else {
        diff
    };
    let unamb = 5 * adiff > den;
    (num, den, r, unamb, fc)
}

/// Whether any unambiguous stroke among the first `upto` strokes lands in
/// column `idx`, and if so the combined time range of those strokes.
pub open spec fn trange_of(ss: Seq<StrokeView>, upto: int, idx: int, w: int) -> (bool, int, int)
    decreases upto,
{
    if upto <= 0 {
        (false, 0, 0)
    } else {
        let prev = trange_of(ss, upto - 1, idx, w);
        let s = ss[upto - 1];
        if is_unamb(s, w) && floor_col(s, w) == idx {
            if prev.0 {
                (
                    true,
                    if s.t_min < prev.1 {
                        s.t_min
                    } else {
                        prev.1
                    },
                    if s.t_max > prev.2 {
                        s.t_max
                    } else {
                        prev.2
                    },
                )
            } else {
                (true, s.t_min, s.t_max)
            }
        } else {
            prev
        }
    }
}

/// Scan all strokes for the unambiguous time range of one column.
fn scan_trange(ink: &Ink, idx: i64, w: i64) -> (r: (bool, i64, i64))
    requires
        ink.wf(),
        1 <= w <= 4096,
    ensures
        ({
            let t = trange_of(ink@, ink@.len() as int, idx as int, w as int);
            r.0 == t.0 && r.1 == t.1 && r.2 == t.2 && (r.0 ==> -TIME_BOUND <= r.1 <= TIME_BOUND
                && -TIME_BOUND <= r.2 <= TIME_BOUND)
        }),
{
    let mut found = false;
    let mut mn: i64 = 0;
    let mut mx: i64 = 0;
    let n = ink.strokes.len();
    let mut k: usize = 0;
    while k < n
        invariant
            k <= n,
            n == ink@.len(),
            ink.wf(),
            1 <= w <= 4096,
            ({
                let t = trange_of(ink@, k as int, idx as int, w as int);
                found == t.0 && mn == t.1 && mx == t.2
            }),
            found ==> -TIME_BOUND <= mn <= TIME_BOUND && -TIME_BOUND <= mx <= TIME_BOUND,
            !found ==> mn == 0 && mx == 0,
        decreases n - k,
    {
        proof {
            assert(ink@[k as int] == ink.strokes@[k as int]@);
            assert(stroke_wf(ink@[k as int]));
        }
        let (_num, _den, _r, unamb, fc) = stroke_center(&ink.strokes[k], w);
        if unamb && fc == idx {
            let s = &ink.strokes[k];
            if found {
                if s.t_min < mn {
                    mn = s.t_min;
                }
                if s.t_max > mx {
                    mx = s.t_max;
                }
            } else {
                found = true;
                mn = s.t_min;
                mx = s.t_max;
            }
        }
        k += 1;
    }
    (found, mn, mx)
}

/// The column a stroke is assigned to. An unambiguous stroke keeps its own
/// column; an ambiguous one goes to whichever neighbouring column's
/// unambiguous strokes are closer in time, defaulting to the boundary's
/// right column; with no unambiguous neighbour at all it takes the rounded
/// center itself.
pub open spec fn assigned_col(ss: Seq<StrokeView>, k: int, w: int) -> int
    recommends
        0 <= k < ss.len(),
{
    let s = ss[k];
    if is_unamb(s, w) {
        floor_col(s, w)
    } else {
        let r = cround(s, w);
        if r == 0 {
            0
        } else {
            let lt = trange_of(ss, ss.len() as int, r - 1, w);
            let rt = trange_of(ss, ss.len() as int, r, w);
            if !lt.0 && !rt.0 {
                r
            } else if lt.0 && !rt.0 {
                r - 1
            } else if !lt.0 && rt.0 {
                r
            } else if s.t_min - lt.2 < rt.1 - s.t_max {
                r - 1
            } else {
                r
            }
        }
    }
}

/// Coordinate sums are bounded by the extreme coordinates.
pub proof fn lemma_sum_le_max(pts: Seq<Sample>)
    requires
        pts.len() >= 1,
    ensures
        pts.len() * min_x(pts) <= sum_x(pts) <= pts.len() * max_x(pts),
        pts.len() * min_y(pts) <= sum_y(pts) <= pts.len() * max_y(pts),
    decreases pts.len(),
{
    if pts.len() == 1 {
        assert(pts.drop_last() =~= Seq::<Sample>::empty());
        assert(sum_x(Seq::<Sample>::empty()) == 0);
        assert(sum_y(Seq::<Sample>::empty()) == 0);
        assert(sum_x(pts) == pts[0].x);
        assert(sum_y(pts) == pts[0].y);
        assert(1 * min_x(pts) == min_x(pts) && 1 * max_x(pts) == max_x(pts) && 1 * min_y(pts)
            == min_y(pts) && 1 * max_y(pts) == max_y(pts)) by (nonlinear_arith);
    } else {
        lemma_sum_le_max(pts.drop_last());
        let n = pts.len() - 1;
        let mn0 = min_x(pts.drop_last());
        let mx0 = max_x(pts.drop_last());
        let mn = min_x(pts);
        let mx = max_x(pts);
        assert(n * mn0 + pts.last().x >= (n + 1) * mn && n * mn <= n * mn0) by (nonlinear_arith)
            requires
                n >= 1,
                mn <= mn0,
                mn <= pts.last().x,
        ;
        assert(n * mx0 + pts.last().x <= (n + 1) * mx && n * mx0 <= n * mx) by (nonlinear_arith)
            requires
                n >= 1,
                mx >= mx0,
                mx >= pts.last().x,
        ;
        let yn0 = min_y(pts.drop_last());
        let yx0 = max_y(pts.drop_last());
        let yn = min_y(pts);
        let yx = max_y(pts);
        assert(n * yn0 + pts.last().y >= (n + 1) * yn && n * yn <= n * yn0) by (nonlinear_arith)
            requires
                n >= 1,
                yn <= yn0,
                yn <= pts.last().y,
        ;
        assert(n * yx0 + pts.last().y <= (n + 1) * yx && n * yx0 <= n * yx) by (nonlinear_arith)
            requires
                n >= 1,
                yx >= yx0,
                yx >= pts.last().y,
        ;
    }
}

/// The coordinate sums of an ink are bounded by its extreme coordinates.
pub proof fn lemma_ink_sum_le_max(i: Seq<StrokeView>)
    requires
        i.len() >= 1,
        forall|k: int| 0 <= k < i.len() ==> (#[trigger] i[k]).points.len() >= 1,
    ensures
        ink_count(i) * ink_min_y(i) <= ink_sum_y(i) <= ink_count(i) * ink_max_y(i),
        ink_count(i) * ink_min_x(i) <= ink_sum_x(i) <= ink_count(i) * ink_max_x(i),
        ink_count(i) >= 1,
    decreases i.len(),
{
    let pts = i.last().points;
    lemma_sum_le_max(pts);
    if i.len() == 1 {
        assert(i.drop_last() =~= Seq::<StrokeView>::empty());
        assert(ink_count(Seq::<StrokeView>::empty()) == 0);
        assert(ink_sum_y(Seq::<StrokeView>::empty()) == 0);
        assert(ink_sum_x(Seq::<StrokeView>::empty()) == 0);
    } else {
        assert(forall|k: int| 0 <= k < i.len() - 1 ==> i.drop_last()[k] == i[k]);
        lemma_ink_sum_le_max(i.drop_last());
        let c0 = ink_count(i.drop_last());
        let n = pts.len() as int;
        let mn = ink_min_y(i);
        let mx = ink_max_y(i);
        assert((c0 + n) * mn <= c0 * ink_min_y(i.drop_last()) + n * min_y(pts)) by (nonlinear_arith)
            requires
                c0 >= 1,
                n >= 1,
                mn <= ink_min_y(i.drop_last()),
                mn <= min_y(pts),
        ;
        assert(c0 * ink_max_y(i.drop_last()) + n * max_y(pts) <= (c0 + n) * mx) by (nonlinear_arith)
            requires
                c0 >= 1,
                n >= 1,
                mx >= ink_max_y(i.drop_last()),
                mx >= max_y(pts),
        ;
        let xmn = ink_min_x(i);
        let xmx = ink_max_x(i);
        assert((c0 + n) * xmn <= c0 * ink_min_x(i.drop_last()) + n * min_x(pts)) by (nonlinear_arith)
            requires
                c0 >= 1,
                n >= 1,
                xmn <= ink_min_x(i.drop_last()),
                xmn <= min_x(pts),
        ;
        assert(c0 * ink_max_x(i.drop_last()) + n * max_x(pts) <= (c0 + n) * xmx) by (nonlinear_arith)
            requires
                c0 >= 1,
                n >= 1,
                xmx >= ink_max_x(i.drop_last()),
                xmx >= max_x(pts),
        ;
    }
}

/// Every sample of an ink lies inside the ink's bounding box.
pub proof fn lemma_ink_contains(i: Seq<StrokeView>, k: int, j: int)
    requires
        0 <= k < i.len(),
        0 <= j < i[k].points.len(),
    ensures
        ink_min_x(i) <= i[k].points[j].x <= ink_max_x(i),
        ink_min_y(i) <= i[k].points[j].y <= ink_max_y(i),
    decreases i.len(),
{
    if k == i.len() - 1 {
        crate::geom::lemma_minmax_contains(i.last().points, j);
    } else {
        assert(forall|t: int| 0 <= t < i.len() - 1 ==> i.drop_last()[t] == i[t]);
        lemma_ink_contains(i.drop_last(), k, j);
    }
}

/// The assigned column of each stroke, with the bound that makes the
/// per-column translation stay in range.
fn assigned_col_exec(ink: &Ink, k: usize, w: i64) -> (c: i64)
    requires
        ink.wf(),
        k < ink@.len(),
        1 <= w <= 4096,
    ensures
        c == assigned_col(ink@, k as int, w as int),
        0 <= c,
        c * w <= (if max_x(ink@[k as int].points) > 0 {
            max_x(ink@[k as int].points)
        } else {
            0
        }) + w,
{
    proof {
        assert(ink@[k as int] == ink.strokes@[k as int]@);
        assert(stroke_wf(ink@[k as int]));
    }
    let (num, den, r, unamb, fc) = stroke_center(&ink.strokes[k], w);
    let ghost s = ink@[k as int];
    let ghost mxp = if max_x(s.points) > 0 { max_x(s.points) } else { 0int };
    proof {
        lemma_sum_le_max(s.points);
        lemma_minmax_bounds(s.points, INK_XY_BOUND as int);
        let n = s.points.len() as int;
        let ww = w as int;
        assert(n * max_x(s.points) <= n * mxp) by (nonlinear_arith)
            requires
                n >= 0,
                max_x(s.points) <= mxp,
        ;
        assert(cnum(s) <= n * mxp);
        // an unambiguous stroke's own column keeps the translation in range
        assert(fc * (n * ww) <= n * mxp ==> fc * ww <= mxp) by (nonlinear_arith)
            requires
                n >= 1,
                ww >= 1,
                fc >= 0,
        ;
        // the rounded boundary is at most one cell past the rightmost sample
        assert(r * (n * ww) <= n * mxp + n * ww ==> r * ww <= mxp + ww) by (nonlinear_arith)
            requires
                n >= 1,
                ww >= 1,
                r >= 0,
        ;
        assert(r * ww >= 0 && fc * ww >= 0) by (nonlinear_arith)
            requires
                r >= 0,
                fc >= 0,
                ww >= 1,
        ;
        assert(r >= 1 ==> (r - 1) * ww <= r * ww) by (nonlinear_arith)
            requires
                ww >= 1,
        ;
        assert(fc * (n * ww) <= n * mxp);
        assert(r * (n * ww) <= n * mxp + n * ww) by {
            assert(cnum(s) + cden(s, ww) <= n * mxp + n * ww);
        }
    }
    if unamb {
        fc
    } else {
        if r == 0 {
            0
        } else {
            let lt = scan_trange(ink, r - 1, w);
            let rt = scan_trange(ink, r, w);
            if !lt.0 && !rt.0 {
                r
            } else if lt.0 && !rt.0 {
                r - 1
            } else if !lt.0 && rt.0 {
                r
            } else {
                let s_ref = &ink.strokes[k];
                if s_ref.t_min - lt.2 < rt.1 - s_ref.t_max {
                    r - 1
                } else {
                    r
                }
            }
        }
    }
}

// ---- assembling per-column tokens ----

/// Entries are sorted by strictly increasing column.
pub open spec fn tokens_sorted(acc: Seq<(int, Seq<StrokeView>)>) -> bool {
    forall|i: int, j: int| 0 <= i < j < acc.len() ==> (#[trigger] acc[i]).0 < (#[trigger] acc[j]).0
}

/// Add one stroke to its column's ink, keeping entries sorted by column.
pub open spec fn tokens_insert(
    acc: Seq<(int, Seq<StrokeView>)>,
    c: int,
    s: StrokeView,
) -> Seq<(int, Seq<StrokeView>)>
    decreases acc.len(),
{
    if acc.len() == 0 {
        seq![(c, seq![s])]
    } else {
        let lc = acc.last().0;
        let li = acc.last().1;
        if lc == c {
            acc.drop_last().push((c, li.push(s)))
        } else if lc < c {
            acc.push((c, seq![s]))
        } else {
            tokens_insert(acc.drop_last(), c, s).push((lc, li))
        }
    }
}

/// On a sorted accumulator, the insert either extends the unique entry of the
/// column or inserts a fresh entry at the position found by scanning from the
/// end. Sortedness is kept.
pub proof fn lemma_tokens_insert(acc: Seq<(int, Seq<StrokeView>)>, c: int, s: StrokeView, i: int)
    requires
        tokens_sorted(acc),
        0 <= i <= acc.len(),
        forall|t: int| i <= t < acc.len() ==> (#[trigger] acc[t]).0 > c,
        i > 0 ==> acc[i - 1].0 <= c,
    ensures
        i > 0 && acc[i - 1].0 == c ==> tokens_insert(acc, c, s) == acc.update(
            i - 1,
            (c, acc[i - 1].1.push(s)),
        ),
        !(i > 0 && acc[i - 1].0 == c) ==> tokens_insert(acc, c, s) == acc.insert(i, (c, seq![s])),
        tokens_sorted(tokens_insert(acc, c, s)),
    decreases acc.len(),
{
    if acc.len() == 0 {
        assert(acc.insert(0, (c, seq![s])) =~= seq![(c, seq![s])]);
        assert(tokens_sorted(tokens_insert(acc, c, s)));
    } else {
        let lc = acc.last().0;
        let li = acc.last().1;
        if lc == c {
            assert(i == acc.len());
            assert(acc.drop_last().push((c, li.push(s))) =~= acc.update(
                i - 1,
                (c, acc[i - 1].1.push(s)),
            ));
            assert(tokens_sorted(tokens_insert(acc, c, s)));
        } else if lc < c {
            assert(i == acc.len());
            assert(acc.push((c, seq![s])) =~= acc.insert(i, (c, seq![s])));
            assert(tokens_sorted(tokens_insert(acc, c, s)));
        } else {
            assert(i < acc.len());
            let front = acc.drop_last();
            assert(tokens_sorted(front));
            assert(forall|t: int| 0 <= t < front.len() ==> front[t] == acc[t]);
            lemma_tokens_insert(front, c, s, i);
            if i > 0 && acc[i - 1].0 == c {
                assert(tokens_insert(front, c, s).push((lc, li)) =~= acc.update(
                    i - 1,
                    (c, acc[i - 1].1.push(s)),
                ));
            } else {
                assert(tokens_insert(front, c, s).push((lc, li)) =~= acc.insert(i, (c, seq![s])));
            }
            let out = tokens_insert(acc, c, s);
            assert forall|a: int, b: int| 0 <= a < b < out.len() implies out[a].0 < out[b].0 by {
                if b == out.len() - 1 {
                    if i > 0 && acc[i - 1].0 == c {
                        assert(out[a].0 == acc.update(i - 1, (c, acc[i - 1].1.push(s)))[a].0);
                    }
                }
            }
        }
    }
}

/// The tokens of the first `upto` strokes: each stroke appended, in order, to
/// the ink of its assigned column, translated into that column's frame.
pub open spec fn tokenize_upto(full: Seq<StrokeView>, upto: int, w: int) -> Seq<
    (int, Seq<StrokeView>),
>
    decreases upto,
{
    if upto <= 0 {
        Seq::<(int, Seq<StrokeView>)>::empty()
    } else {
        let c = assigned_col(full, upto - 1, w);
        tokens_insert(
            tokenize_upto(full, upto - 1, w),
            c,
            stroke_shift(full[upto - 1], -c * w, 0),
        )
    }
}

/// The per-column sub-inks of an ink, sorted by column.
pub open spec fn tokenize_spec(full: Seq<StrokeView>, w: int) -> Seq<(int, Seq<StrokeView>)> {
    tokenize_upto(full, full.len() as int, w)
}

pub open spec fn tokens_view(v: Seq<(usize, Ink)>) -> Seq<(int, Seq<StrokeView>)> {
    v.map_values(|p: (usize, Ink)| (p.0 as int, p.1@))
}

// ---- the tokenization is a partition of the input strokes ----

/// How many strokes the tokens hold in total.
pub open spec fn tokens_total(acc: Seq<(int, Seq<StrokeView>)>) -> int
    decreases acc.len(),
{
    if acc.len() == 0 {
        0
    } else {
        tokens_total(acc.drop_last()) + acc.last().1.len()
    }
}

/// The ink stored for one column (empty if the column has no entry).
pub open spec fn tokens_find(acc: Seq<(int, Seq<StrokeView>)>, c: int) -> Seq<StrokeView>
    decreases acc.len(),
{
    if acc.len() == 0 {
        Seq::<StrokeView>::empty()
    } else if acc.last().0 == c {
        acc.last().1
    } else {
        tokens_find(acc.drop_last(), c)
    }
}

/// The strokes of the first `upto` whose assigned column is `c`, translated
/// into that column's frame, in input order.
pub open spec fn column_ink(full: Seq<StrokeView>, upto: int, c: int, w: int) -> Seq<StrokeView>
    decreases upto,
{
    if upto <= 0 {
        Seq::<StrokeView>::empty()
    } else {
        let rest = column_ink(full, upto - 1, c, w);
        if assigned_col(full, upto - 1, w) == c {
            rest.push(stroke_shift(full[upto - 1], -c * w, 0))
        } else {
            rest
        }
    }
}

/// The same strokes, untranslated.
pub open spec fn assigned_strokes(full: Seq<StrokeView>, upto: int, c: int, w: int) -> Seq<
    StrokeView,
>
    decreases upto,
{
    if upto <= 0 {
        Seq::<StrokeView>::empty()
    } else {
        let rest = assigned_strokes(full, upto - 1, c, w);
        if assigned_col(full, upto - 1, w) == c {
            rest.push(full[upto - 1])
        } else {
            rest
        }
    }
}

/// Inserting one stroke adds exactly one stroke to the total, extends the
/// stroke's own column by that stroke, leaves every other column unchanged,
/// and introduces no column other than the stroke's own.
pub proof fn lemma_insert_effect(acc: Seq<(int, Seq<StrokeView>)>, c: int, s: StrokeView)
    requires
        tokens_sorted(acc),
    ensures
        tokens_total(tokens_insert(acc, c, s)) == tokens_total(acc) + 1,
        tokens_find(tokens_insert(acc, c, s), c) == tokens_find(acc, c).push(s),
        forall|c2: int| c2 != c ==> tokens_find(tokens_insert(acc, c, s), c2) == tokens_find(
            acc,
            c2,
        ),
    decreases acc.len(),
{
    let out = tokens_insert(acc, c, s);
    let empty_acc = Seq::<(int, Seq<StrokeView>)>::empty();
    assert(tokens_total(empty_acc) == 0);
    assert(forall|c2: int| tokens_find(empty_acc, c2) =~= Seq::<StrokeView>::empty());
    if acc.len() == 0 {
        assert(out == seq![(c, seq![s])]);
        assert(out.drop_last() =~= empty_acc);
        assert(out.last() == (c, seq![s]));
        assert(tokens_total(out) == 1);
        assert(tokens_find(out, c) == seq![s]);
        assert(tokens_find(acc, c).push(s) =~= seq![s]);
        assert(forall|c2: int| c2 != c ==> tokens_find(out, c2) == tokens_find(empty_acc, c2));
    } else {
        let lc = acc.last().0;
        let li = acc.last().1;
        if lc == c {
            let upd = acc.drop_last().push((c, li.push(s)));
            assert(out == upd);
            assert(upd.drop_last() =~= acc.drop_last());
            assert(upd.last() == (c, li.push(s)));
            assert(tokens_total(upd) == tokens_total(acc.drop_last()) + li.len() + 1);
            assert(tokens_total(acc) == tokens_total(acc.drop_last()) + li.len());
            assert(tokens_find(upd, c) == li.push(s));
            assert(tokens_find(acc, c) == li);
            assert(forall|c2: int|
                c2 != c ==> tokens_find(upd, c2) == tokens_find(acc.drop_last(), c2));
            assert(forall|c2: int|
                c2 != c ==> tokens_find(acc, c2) == tokens_find(acc.drop_last(), c2));
        } else if lc < c {
            assert(out == acc.push((c, seq![s])));
            assert(out.drop_last() =~= acc);
            assert(out.last() == (c, seq![s]));
            assert(tokens_total(out) == tokens_total(acc) + 1);
            assert(tokens_find(out, c) == seq![s]);
            assert(tokens_find(acc, c) =~= Seq::<StrokeView>::empty()) by {
                assert forall|t: int| 0 <= t < acc.len() implies (#[trigger] acc[t]).0 != c by {
                    if t < acc.len() - 1 {
                        assert(acc[t].0 < acc[acc.len() - 1].0);
                    }
                }
                lemma_find_absent(acc, c);
            }
            assert(tokens_find(acc, c).push(s) =~= seq![s]);
            assert(forall|c2: int| c2 != c ==> tokens_find(out, c2) == tokens_find(acc, c2));
        } else {
            assert(forall|t: int| 0 <= t < acc.len() - 1 ==> acc.drop_last()[t] == acc[t]);
            lemma_insert_effect(acc.drop_last(), c, s);
            let inner = tokens_insert(acc.drop_last(), c, s);
            assert(out == inner.push((lc, li)));
            assert(out.drop_last() =~= inner);
            assert(out.last() == (lc, li));
            assert(tokens_total(out) == tokens_total(inner) + li.len());
            assert(tokens_total(acc) == tokens_total(acc.drop_last()) + li.len());
            assert(tokens_find(out, c) == tokens_find(inner, c));
            assert(tokens_find(acc, c) == tokens_find(acc.drop_last(), c));
            assert forall|c2: int| c2 != c implies tokens_find(out, c2) == tokens_find(
                acc,
                c2,
            ) by {
                if c2 == lc {
                    assert(tokens_find(out, c2) == li);
                    assert(tokens_find(acc, c2) == li);
                } else {
                    assert(tokens_find(out, c2) == tokens_find(inner, c2));
                    assert(tokens_find(inner, c2) == tokens_find(acc.drop_last(), c2));
                    assert(tokens_find(acc, c2) == tokens_find(acc.drop_last(), c2));
                }
            }
        }
    }
}

/// A column greater than every stored column has no entry.
pub proof fn lemma_find_absent(acc: Seq<(int, Seq<StrokeView>)>, c: int)
    requires
        forall|t: int| 0 <= t < acc.len() ==> (#[trigger] acc[t]).0 != c,
    ensures
        tokens_find(acc, c) == Seq::<StrokeView>::empty(),
    decreases acc.len(),
{
    if acc.len() > 0 {
        assert(forall|t: int| 0 <= t < acc.len() - 1 ==> acc.drop_last()[t] == acc[t]);
        lemma_find_absent(acc.drop_last(), c);
    }
}

/// Sorted token lists stay sorted under insertion, and gain no column other
/// than the inserted one.
pub proof fn lemma_insert_sorted(acc: Seq<(int, Seq<StrokeView>)>, c: int, s: StrokeView)
    requires
        tokens_sorted(acc),
    ensures
        tokens_sorted(tokens_insert(acc, c, s)),
        forall|t: int|
            0 <= t < tokens_insert(acc, c, s).len() ==> (#[trigger] tokens_insert(acc, c, s)[t]).0
                == c || exists|u: int|
                0 <= u < acc.len() && acc[u].0 == (tokens_insert(acc, c, s)[t]).0,
    decreases acc.len(),
{
    let out = tokens_insert(acc, c, s);
    if acc.len() == 0 {
    } else {
        let lc = acc.last().0;
        let li = acc.last().1;
        if lc == c {
            assert forall|i: int, j: int| 0 <= i < j < out.len() implies (#[trigger] out[i]).0 < (
            #[trigger] out[j]).0 by {
                assert(acc[i].0 < acc[j].0);
            }
            assert forall|t: int| 0 <= t < out.len() implies (#[trigger] out[t]).0 == c || exists|
                u: int,
            | 0 <= u < acc.len() && acc[u].0 == out[t].0 by {
                if out[t].0 != c {
                    assert(acc[t].0 == out[t].0);
                }
            }
        } else if lc < c {
            assert forall|i: int, j: int| 0 <= i < j < out.len() implies (#[trigger] out[i]).0 < (
            #[trigger] out[j]).0 by {
                if j < out.len() - 1 {
                    assert(acc[i].0 < acc[j].0);
                } else if i < out.len() - 1 {
                    assert(acc[i].0 <= lc);
                }
            }
            assert forall|t: int| 0 <= t < out.len() implies (#[trigger] out[t]).0 == c || exists|
                u: int,
            | 0 <= u < acc.len() && acc[u].0 == out[t].0 by {
                if out[t].0 != c {
                    assert(acc[t].0 == out[t].0);
                }
            }
        } else {
            let front = acc.drop_last();
            assert(forall|t: int| 0 <= t < front.len() ==> front[t] == acc[t]);
            lemma_insert_sorted(front, c, s);
            let inner = tokens_insert(front, c, s);
            assert(out == inner.push((lc, li)));
            assert forall|i: int, j: int| 0 <= i < j < out.len() implies (#[trigger] out[i]).0 < (
            #[trigger] out[j]).0 by {
                if j == out.len() - 1 {
                    assert(out[i] == inner[i]);
                    assert(inner[i].0 == c || exists|u: int|
                        0 <= u < front.len() && front[u].0 == inner[i].0);
                    if inner[i].0 != c {
                        let u = choose|u: int| 0 <= u < front.len() && front[u].0 == inner[i].0;
                        assert(acc[u].0 < lc);
                    }
                } else {
                    assert(inner[i].0 < inner[j].0);
                }
            }
            assert forall|t: int| 0 <= t < out.len() implies (#[trigger] out[t]).0 == c || exists|
                u: int,
            | 0 <= u < acc.len() && acc[u].0 == out[t].0 by {
                if t == out.len() - 1 {
                    assert(acc[acc.len() - 1].0 == out[t].0);
                } else {
                    assert(out[t] == inner[t]);
                    if inner[t].0 != c {
                        let u = choose|u: int| 0 <= u < front.len() && front[u].0 == inner[t].0;
                        assert(acc[u].0 == out[t].0);
                    }
                }
            }
        }
    }
}

/// The token list of a prefix is sorted, holds exactly the prefix's strokes,
/// and stores, for each column, exactly the strokes assigned to it.
pub proof fn lemma_tokenize_upto(full: Seq<StrokeView>, upto: int, w: int)
    requires
        0 <= upto <= full.len(),
    ensures
        tokens_sorted(tokenize_upto(full, upto, w)),
        tokens_total(tokenize_upto(full, upto, w)) == upto,
        forall|c: int| #[trigger]
            tokens_find(tokenize_upto(full, upto, w), c) == column_ink(full, upto, c, w),
    decreases upto,
{
    if upto > 0 {
        lemma_tokenize_upto(full, upto - 1, w);
        let acc = tokenize_upto(full, upto - 1, w);
        let c = assigned_col(full, upto - 1, w);
        let s = stroke_shift(full[upto - 1], -c * w, 0);
        lemma_insert_sorted(acc, c, s);
        lemma_insert_effect(acc, c, s);
        assert forall|c2: int| #[trigger]
            tokens_find(tokenize_upto(full, upto, w), c2) == column_ink(full, upto, c2, w) by {
            if c2 == c {
                assert(tokens_find(acc, c) == column_ink(full, upto - 1, c, w));
                assert(tokens_find(tokens_insert(acc, c, s), c) == tokens_find(acc, c).push(s));
            } else {
                assert(tokens_find(acc, c2) == column_ink(full, upto - 1, c2, w));
                assert(tokens_find(tokens_insert(acc, c, s), c2) == tokens_find(acc, c2));
            }
        }
    }
}

/// Shifting a column's strokes back by the column offset recovers exactly the
/// input strokes assigned to that column.
pub proof fn lemma_column_unshift(full: Seq<StrokeView>, upto: int, c: int, w: int)
    requires
        0 <= upto <= full.len(),
        ink_within(full, RAW_XY_BOUND as int),
        0 <= c * w <= RAW_XY_BOUND + 4096,
        1 <= w <= 4096,
    ensures
        column_ink(full, upto, c, w).map_values(|s: StrokeView| stroke_shift(s, c * w, 0))
            =~= assigned_strokes(full, upto, c, w),
    decreases upto,
{
    if upto > 0 {
        lemma_column_unshift(full, upto - 1, c, w);
        if assigned_col(full, upto - 1, w) == c {
            let s = full[upto - 1];
            assert(stroke_within(s, RAW_XY_BOUND as int));
            let fwd = stroke_shift(s, -c * w, 0);
            assert(stroke_shift(fwd, c * w, 0) =~~= s) by {
                let d = c * w;
                assert((-c) * w == -d) by (nonlinear_arith)
                    requires
                        d == c * w,
                ;
                assert(fwd == stroke_shift(s, -d, 0));
                assert(fwd.points.len() == s.points.len());
                assert forall|j: int| 0 <= j < s.points.len() implies stroke_shift(
                    fwd,
                    c * w,
                    0,
                ).points[j] == s.points[j] by {
                    let p = s.points[j];
                    assert(sample_within(p, RAW_XY_BOUND as int));
                    assert(fwd.points[j] == sample_shift(p, -d, 0));
                    assert(-0x8000_0000 <= p.x - d <= 0x7FFF_FFFF);
                    assert(sample_shift(p, -d, 0).x == p.x - d);
                    assert(sample_shift(p, -d, 0).y == p.y);
                    assert(sample_shift(sample_shift(p, -d, 0), d, 0).x == p.x);
                }
            }
        }
    }
}

/// Tokenization is a partition: the tokens hold exactly as many strokes as
/// the ink, and shifting any column's token back by the column offset yields
/// exactly the input strokes assigned to that column, in their input order.
/// Together these say that the per-column sub-inks, shifted back and
/// collected, reconstruct the original ink's strokes exactly.
/// The token stored for column `c`, shifted back into the original frame.
pub open spec fn unshifted_column(full: Seq<StrokeView>, c: int, w: int) -> Seq<StrokeView> {
    tokens_find(tokenize_spec(full, w), c).map_values(|s: StrokeView| stroke_shift(s, c * w, 0))
}

pub proof fn lemma_tokenize_partition(full: Seq<StrokeView>, w: int)
    requires
        ink_within(full, RAW_XY_BOUND as int),
        1 <= w <= 4096,
    ensures
        tokens_total(tokenize_spec(full, w)) == full.len(),
        forall|c: int|
            0 <= c * w <= RAW_XY_BOUND + 4096 ==> #[trigger] unshifted_column(full, c, w)
                =~= assigned_strokes(full, full.len() as int, c, w),
{
    lemma_tokenize_upto(full, full.len() as int, w);
    assert forall|c: int| 0 <= c * w <= RAW_XY_BOUND + 4096 implies #[trigger] unshifted_column(
        full,
        c,
        w,
    ) =~= assigned_strokes(full, full.len() as int, c, w) by {
        lemma_column_unshift(full, full.len() as int, c, w);
    }
}

impl Ink {
    /// Split multi-glyph ink into per-column sub-inks: each stroke goes to
    /// the column its center falls in (settled by time proximity to its
    /// neighbours' strokes when the center is near a boundary), translated by
    /// the column's offset.
    pub fn tokenize(metrics: &Metrics, ink: &Ink) -> (r: Vec<(usize, Ink)>)
        requires
            metrics.wf(),
            ink.wf(),
            ink_within(ink@, RAW_XY_BOUND as int),
        ensures
            tokens_view(r@) == tokenize_spec(ink@, metrics.width as int),
            forall|t: int| 0 <= t < r@.len() ==> (#[trigger] r@[t]).1.wf() && r@[t].1@.len() >= 1,
            forall|i: int, j: int| 0 <= i < j < r@.len() ==> (#[trigger] r@[i]).0 < (#[trigger] r@[j]).0,
    {
        let w = metrics.width as i64;
        let mut out: Vec<(usize, Ink)> = Vec::new();
        let n = ink.strokes.len();
        let mut k: usize = 0;
        while k < n
            invariant
                k <= n,
                n == ink@.len(),
                metrics.wf(),
                ink.wf(),
                ink_within(ink@, RAW_XY_BOUND as int),
                w == metrics.width as i64,
                tokens_view(out@) == tokenize_upto(ink@, k as int, w as int),
                forall|t: int|
                    0 <= t < out@.len() ==> (#[trigger] out@[t]).1.wf() && out@[t].1@.len() >= 1,
                forall|t: int| 0 <= t < out@.len() ==> (#[trigger] out@[t]).1@.len() <= k,
                forall|i: int, j: int|
                    0 <= i < j < out@.len() ==> (#[trigger] out@[i]).0 < (#[trigger] out@[j]).0,
                forall|t: int| 0 <= t < out@.len() ==> (#[trigger] out@[t]).0 <= usize::MAX,
            decreases n - k,
        {
            let c = assigned_col_exec(ink, k, w);
            proof {
                assert(ink@[k as int] == ink.strokes@[k as int]@);
                assert(stroke_wf(ink@[k as int]));
                assert(stroke_within(ink@[k as int], RAW_XY_BOUND as int));
                lemma_minmax_bounds(ink@[k as int].points, RAW_XY_BOUND as int);
                assert(c * w <= RAW_XY_BOUND + 4096);
                assert(c <= RAW_XY_BOUND + 4096) by (nonlinear_arith)
                    requires
                        c * w <= RAW_XY_BOUND + 4096,
                        w >= 1,
                        c >= 0,
                ;
                assert forall|j: int| 0 <= j < ink@[k as int].points.len() implies {
                    let p = #[trigger] ink@[k as int].points[j];
                    -INK_XY_BOUND <= p.x + (-(c * w)) <= INK_XY_BOUND && -INK_XY_BOUND <= p.y + 0
                        <= INK_XY_BOUND
                } by {
                    assert(sample_within(ink@[k as int].points[j], RAW_XY_BOUND as int));
                }
            }
            let shifted = translate_stroke(&ink.strokes[k], -(c * w), 0);
            let cu = c as usize;
            // scan from the end for the insertion point
            let mut i = out.len();
            while i > 0 && out[i - 1].0 > cu
                invariant
                    0 <= i <= out@.len(),
                    forall|t: int| i <= t < out@.len() ==> (#[trigger] out@[t]).0 > cu,
                decreases i,
            {
                i -= 1;
            }
            proof {
                lemma_tokens_insert(
                    tokens_view(out@),
                    cu as int,
                    shifted@,
                    i as int,
                );
                assert(forall|t: int| 0 <= t < out@.len() ==> tokens_view(out@)[t] == ((
                #[trigger] out@[t]).0 as int, out@[t].1@));
            }
            let ghost pre = out@;
            if i > 0 && out[i - 1].0 == cu {
                let entry = &mut out[i - 1];
                entry.1.strokes.push(shifted);
                proof {
                    assert(out@[i - 1].1@ =~= pre[i - 1].1@.push(shifted@));
                    assert(tokens_view(out@) =~= tokens_view(pre).update(
                        i - 1,
                        (cu as int, pre[i - 1].1@.push(shifted@)),
                    ));
                }
            } else {
                let fresh = Ink { strokes: vec![shifted] };
                proof {
                    assert(fresh@ =~= seq![shifted@]);
                }
                out.insert(i, (cu, fresh));
                proof {
                    assert(tokens_view(out@) =~= tokens_view(pre).insert(
                        i as int,
                        (cu as int, seq![shifted@]),
                    ));
                }
            }
            proof {
                let acc0 = tokens_view(pre);
                let cspec = assigned_col(ink@, k as int, w as int);
                assert(cu as int == cspec);
                assert((-cspec) * (w as int) == -(cspec * (w as int))) by (nonlinear_arith);
                assert(shifted@ == stroke_shift(ink@[k as int], -cspec * (w as int), 0));
                assert(tokens_view(out@) == tokens_insert(acc0, cspec, shifted@));
                assert(tokenize_upto(ink@, k + 1 as int, w as int) == tokens_insert(
                    tokenize_upto(ink@, k as int, w as int),
                    cspec,
                    stroke_shift(ink@[k as int], -cspec * (w as int), 0),
                ));
                assert(tokens_view(out@) == tokenize_upto(ink@, k + 1 as int, w as int));
            }
            k += 1;
        }
        proof {
            assert(tokenize_upto(ink@, n as int, w as int) == tokenize_spec(
                ink@,
                metrics.width as int,
            ));
        }
        out
    }
}

// ---- gesture classification ----

/// The classified meaning of a captured ink.
pub enum InkType {
    /// A horizontal strike through the current line: typically, delete.
    Strikethrough { start: Coord, end: Coord },
    /// A scratch-out of a single cell: typically, replace with whitespace.
    Scratch { at: Coord },
    /// Something that appears to be one or more characters, one per column.
    Glyphs { tokens: Vec<(Coord, Ink)> },
    /// A vertical line between characters: an insertion point.
    Carat { at: Coord, ink: Ink },
    /// A gesture command drawn while a selection is active.
    BigGlyph { token: Ink },
    /// A single stroke drawn from the current carat to elsewhere.
    LineTo { coord: Coord },
}

#[verifier::ext_equal]
pub ghost enum InkTypeView {
    Strikethrough { start: (int, int), end: (int, int) },
    Scratch { at: (int, int) },
    Glyphs { tokens: Seq<((int, int), Seq<StrokeView>)> },
    Carat { at: (int, int), ink: Seq<StrokeView> },
    BigGlyph { token: Seq<StrokeView> },
    LineTo { coord: (int, int) },
}

impl View for InkType {
    type V = InkTypeView;

    open spec fn view(&self) -> InkTypeView {
        match self {
            InkType::Strikethrough { start, end } => InkTypeView::Strikethrough {
                start: (start.0 as int, start.1 as int),
                end: (end.0 as int, end.1 as int),
            },
            InkType::Scratch { at } => InkTypeView::Scratch { at: (at.0 as int, at.1 as int) },
            InkType::Glyphs { tokens } => InkTypeView::Glyphs {
                tokens: tokens@.map_values(
                    |p: (Coord, Ink)| (((p.0.0 as int, p.0.1 as int)), p.1@),
                ),
            },
            InkType::Carat { at, ink } => InkTypeView::Carat {
                at: (at.0 as int, at.1 as int),
                ink: ink@,
            },
            InkType::BigGlyph { token } => InkTypeView::BigGlyph { token: token@ },
            InkType::LineTo { coord } => InkTypeView::LineTo {
                coord: (coord.0 as int, coord.1 as int),
            },
        }
    }
}

/// The structural soundness of a classified gesture's payload: every ink it
/// carries is well-formed, and inks that feed the recognizers are non-empty.
pub open spec fn ink_type_wf(t: InkType) -> bool {
    match t {
        InkType::Glyphs { tokens } => forall|i: int|
            0 <= i < tokens@.len() ==> (#[trigger] tokens@[i]).1.wf() && tokens@[i].1@.len() >= 1,
        InkType::Carat { at, ink } => ink.wf(),
        InkType::BigGlyph { token } => token.wf() && token@.len() >= 1,
        _ => true,
    }
}

pub open spec fn classify_view(r: Option<InkType>) -> Option<InkTypeView> {
    match r {
        Option::None => Option::<InkTypeView>::None,
        Option::Some(t) => Option::Some(t@),
    }
}

pub open spec fn max0(v: int) -> int {
    if v < 0 {
        0
    } else {
        v
    }
}

/// The grid cell a sample falls in: the row below it and the nearest column
/// boundary, clamped to the grid.
pub open spec fn cell_of(p: Sample, h: int, w: int) -> (int, int) {
    (max0(floor_div_spec(p.y as int, h)), max0(round_div_spec(p.x as int, w)))
}

/// The grid row of the ink's vertical centroid.
pub open spec fn row_of(i: Seq<StrokeView>, h: int) -> int {
    if ink_sum_y(i) <= 0 {
        0
    } else {
        floor_div_spec(ink_sum_y(i), ink_count(i) * h)
    }
}

/// A mark is an erasure when it has a lot of ink per unit of bounding area
/// and is not extremely tiny.
pub open spec fn is_erase_spec(len: int, ex: int, ey: int) -> bool {
    let area = if ex * ey < 500 {
        500
    } else {
        ex * ey
    };
    5 * len >= area
}

/// What `classify` returns, for every metrics, selection and ink: a pure
/// function of its inputs.
pub open spec fn classify_spec(m: Metrics, sel: SelectionView, i: Seq<StrokeView>) -> Option<
    InkTypeView,
> {
    let h = m.height as int;
    let w = m.width as int;
    let cnt = ink_count(i);
    if cnt == 0 {
        Option::<InkTypeView>::None
    } else {
        let row = row_of(i, h);
        let xmin = ink_min_x(i);
        let xmax = ink_max_x(i);
        if sel is Normal && 2 * (xmax - xmin) > 3 * w && i.len() == 1 {
            if 5 * ink_len_of(i) < 6 * (xmax - xmin) {
                Option::Some(
                    InkTypeView::Strikethrough {
                        start: (row, max0(round_div_spec(xmin, w))),
                        end: (row, max0(round_div_spec(xmax, w))),
                    },
                )
            } else {
                Option::<InkTypeView>::None
            }
        } else if sel is Single && i.len() == 1 && cell_of(i[0].points[0], h, w)
            == sel->Single_carat.coord {
            Option::Some(
                InkTypeView::LineTo { coord: cell_of(i[0].points.last(), h, w) },
            )
        } else {
            let t = ink_shift(i, 0, -(row * h));
            let ymin = ink_min_y(t);
            let ymax = ink_max_y(t);
            let c2 = xmin + xmax;
            let r = round_div_spec(c2, 2 * w);
            if 10 * ymin < h && 10 * ymax > 9 * h && 2 * (xmax - xmin) < w && 10 * absi(
                c2 - r * (2 * w),
            ) < 6 * w && r >= 0 {
                Option::Some(
                    InkTypeView::Carat { at: (row, r), ink: ink_shift(t, -(r * w), 0) },
                )
            } else if c2 < 0 {
                Option::<InkTypeView>::None
            } else if sel is Normal && is_erase_spec(
                ink_len_of(t),
                ink_max_x(t) - ink_min_x(t),
                ymax - ymin,
            ) {
                Option::Some(InkTypeView::Scratch { at: (row, floor_div_spec(c2, 2 * w)) })
            } else if sel is Normal {
                Option::Some(
                    InkTypeView::Glyphs {
                        tokens: tokenize_spec(t, w).map_values(
                            |e: (int, Seq<StrokeView>)| (((row, e.0)), e.1),
                        ),
                    },
                )
            } else {
                let cx = floor_div_spec(ink_sum_x(t), ink_count(t));
                let cy = floor_div_spec(ink_sum_y(t), ink_count(t));
                Option::Some(InkTypeView::BigGlyph { token: ink_shift(t, -cx, -cy) })
            }
        }
    }
}

/// Rounding division never grows past the value by more than one divisor.
pub proof fn lemma_round_div_abs(n: int, d: int)
    requires
        d >= 1,
    ensures
        absi(round_div_spec(n, d)) * d <= absi(n) + d,
        absi(round_div_spec(n, d)) <= absi(n) + d,
        n < 0 ==> round_div_spec(n, d) <= 0,
        n >= 0 ==> round_div_spec(n, d) >= 0,
{
    if n >= 0 {
        lemma_round_div_bounds(n, d);
        assert(round_div_spec(n, d) <= n + d) by (nonlinear_arith)
            requires
                round_div_spec(n, d) * d <= n + d,
                d >= 1,
                round_div_spec(n, d) >= 0,
                n >= 0,
        ;
    } else {
        lemma_round_div_bounds(-n, d);
        assert(round_div_spec(n, d) == -round_div_spec(-n, d));
        assert(absi(round_div_spec(n, d)) == round_div_spec(-n, d));
        assert(round_div_spec(-n, d) <= -n + d) by (nonlinear_arith)
            requires
                round_div_spec(-n, d) * d <= -n + d,
                d >= 1,
                round_div_spec(-n, d) >= 0,
                -n >= 0,
        ;
    }
}

/// The floor of a quotient lies between the bounds that bracket the sum.
pub proof fn lemma_floor_div_between(s: int, c: int, lo: int, hi: int)
    requires
        c >= 1,
        c * lo <= s <= c * hi,
    ensures
        lo <= floor_div_spec(s, c) <= hi,
{
    let q = s / c;
    broadcast use vstd::arithmetic::div_mod::lemma_fundamental_div_mod;
    broadcast use vstd::arithmetic::div_mod::lemma_mod_bound;

    assert(s == c * q + s % c);
    assert(0 <= s % c < c);
    assert(lo <= q && q <= hi) by (nonlinear_arith)
        requires
            s == c * q + s % c,
            0 <= s % c < c,
            c >= 1,
            c * lo <= s <= c * hi,
    ;
}

/// The row of a sample: the cell below its vertical position, clamped.
fn cell_row(v: i64, h: i64) -> (r: usize)
    requires
        1 <= h <= 4096,
        -INK_XY_BOUND <= v <= INK_XY_BOUND,
    ensures
        r as int == max0(floor_div_spec(v as int, h as int)),
{
    let q = floor_div(v, h);
    proof {
        if v >= 0 {
            lemma_floor_div_bounds(v as int, h as int);
            assert(q <= v) by (nonlinear_arith)
                requires
                    q * h <= v,
                    h >= 1,
                    q >= 0,
            ;
        } else {
            broadcast use vstd::arithmetic::div_mod::lemma_fundamental_div_mod;
            broadcast use vstd::arithmetic::div_mod::lemma_mod_bound;

            assert(v as int == (h as int) * ((v as int) / (h as int)) + (v as int) % (h as int));
            assert(0 <= (v as int) % (h as int) < h as int);
            assert((v as int) / (h as int) <= 0) by (nonlinear_arith)
                requires
                    v as int == (h as int) * ((v as int) / (h as int)) + (v as int) % (h as int),
                    0 <= (v as int) % (h as int) < h as int,
                    v < 0,
                    h >= 1,
            ;
        }
    }
    if q < 0 {
        0
    } else {
        q as usize
    }
}

/// The column boundary nearest a sample's horizontal position, clamped.
fn cell_col(v: i64, w: i64) -> (r: usize)
    requires
        1 <= w <= 4096,
        -INK_XY_BOUND <= v <= INK_XY_BOUND,
    ensures
        r as int == max0(round_div_spec(v as int, w as int)),
{
    proof {
        lemma_round_div_abs(v as int, w as int);
    }
    let q = round_div(v, w);
    if q < 0 {
        0
    } else {
        q as usize
    }
}

impl InkType {
    /// What sort of ink is this? The decision is a pure function of the
    /// metrics, the current selection and the ink itself.
    pub fn classify(metrics: &Metrics, ink: Ink, selection: &Selection) -> (r: Option<InkType>)
        requires
            metrics.wf(),
            ink.wf(),
            ink_within(ink@, CLASSIFY_XY_BOUND as int),
        ensures
            classify_view(r) == classify_spec(*metrics, selection@, ink@),
            r matches Some(t) ==> ink_type_wf(t),
    {
        let st = ink.stats();
        proof {
            if ink@.len() == 0 {
                assert(ink@ =~= Seq::<StrokeView>::empty());
                assert(ink_count(Seq::<StrokeView>::empty()) == 0);
            }
        }
        if st.count == 0 {
            return None;
        }
        let h = metrics.height as i64;
        let w = metrics.width as i64;
        proof {
            assert(forall|k: int| 0 <= k < ink@.len() ==> stroke_within(#[trigger] ink@[k], CLASSIFY_XY_BOUND as int));
            lemma_ink_aggregate_bounds(ink@, CLASSIFY_XY_BOUND as int);
            assert(ink_count(ink@) * CLASSIFY_XY_BOUND <= 0x100_0000 * CLASSIFY_XY_BOUND)
                by (nonlinear_arith)
                requires
                    0 <= ink_count(ink@) <= 0x100_0000,
            ;
            assert(ink_count(ink@) * (3 * CLASSIFY_XY_BOUND) <= 0x100_0000 * (3
                * CLASSIFY_XY_BOUND)) by (nonlinear_arith)
                requires
                    0 <= ink_count(ink@) <= 0x100_0000,
            ;
            assert(forall|k: int| 0 <= k < ink@.len() ==> (#[trigger] ink@[k]).points.len() >= 1);
            lemma_ink_sum_le_max(ink@);
        }
        let cnt = st.count as i64;
        proof {
            assert(1 <= (cnt as int) * (h as int) <= 0x100_0000 * 4096) by (nonlinear_arith)
                requires
                    1 <= cnt <= 0x100_0000,
                    1 <= h <= 4096,
            ;
        }
        let row_i: i64 = if st.sum_y <= 0 {
            0
        } else {
            floor_div(st.sum_y, cnt * h)
        };
        proof {
            // the row times the cell height never goes past the lowest sample
            if st.sum_y > 0 {
                lemma_floor_div_bounds(st.sum_y as int, (cnt * h) as int);
                assert(row_i * h <= ink_max_y(ink@) && row_i <= 0x100_0000 * 4096 * 0x100_0000)
                    by (nonlinear_arith)
                    requires
                        row_i >= 0,
                        row_i * ((cnt as int) * (h as int)) <= st.sum_y as int,
                        st.sum_y as int <= (cnt as int) * ink_max_y(ink@),
                        1 <= cnt,
                        1 <= h,
                        st.sum_y as int >= 1,
                        ink_max_y(ink@) <= CLASSIFY_XY_BOUND,
                ;
            }
            assert(0 <= row_i * h <= CLASSIFY_XY_BOUND || row_i * h == 0) by (nonlinear_arith)
                requires
                    row_i >= 0,
                    h >= 1,
                    row_i * h <= CLASSIFY_XY_BOUND || row_i == 0,
            ;
            assert(row_i <= CLASSIFY_XY_BOUND) by (nonlinear_arith)
                requires
                    row_i >= 0,
                    h >= 1,
                    row_i * h <= CLASSIFY_XY_BOUND || row_i == 0,
            ;
            assert(row_i as int == row_of(ink@, h as int));
        }
        let row_us = row_i as usize;
        let normal = match selection {
            Selection::Normal => true,
            _ => false,
        };
        if normal && 2 * (st.max_x - st.min_x) > 3 * w {
            if ink.strokes.len() == 1 {
                if 5 * (st.length as i64) < 6 * (st.max_x - st.min_x) {
                    let s1 = cell_col(st.min_x, w);
                    let e1 = cell_col(st.max_x, w);
                    return Some(InkType::Strikethrough { start: (row_us, s1), end: (row_us, e1) });
                } else {
                    return None;
                }
            }
        }
        if let Selection::Single { carat } = selection {
            if ink.strokes.len() == 1 {
                proof {
                    assert(ink@[0] == ink.strokes@[0]@);
                    assert(stroke_wf(ink@[0]));
                    assert(sample_within(ink@[0].points[0], CLASSIFY_XY_BOUND as int));
                    assert(sample_within(
                        ink@[0].points[ink@[0].points.len() - 1],
                        CLASSIFY_XY_BOUND as int,
                    ));
                }
                let pts = &ink.strokes[0].points;
                let first = pts[0];
                let last = pts[pts.len() - 1];
                let fr = cell_row(first.y as i64, h);
                let fc = cell_col(first.x as i64, w);
                if fr == carat.coord.0 && fc == carat.coord.1 {
                    let lr = cell_row(last.y as i64, h);
                    let lc = cell_col(last.x as i64, w);
                    return Some(InkType::LineTo { coord: (lr, lc) });
                }
            }
        }
        // move into the row's local frame
        proof {
            assert forall|k: int, j: int|
                0 <= k < ink@.len() && 0 <= j < ink@[k].points.len() implies {
                let p = #[trigger] ink@[k].points[j];
                -INK_XY_BOUND <= p.x + 0 <= INK_XY_BOUND && -INK_XY_BOUND <= p.y + (-(row_i * h))
                    <= INK_XY_BOUND
            } by {
                lemma_ink_contains(ink@, k, j);
                assert(sample_within(ink@[k].points[j], CLASSIFY_XY_BOUND as int)) by {
                    assert(stroke_within(ink@[k], CLASSIFY_XY_BOUND as int));
                }
            }
        }
        let t = ink.translate(0, -(row_i * h));
        let ts = t.stats();
        proof {
            assert(t@.len() == ink@.len());
            // every sample of the row-local ink stays within the tokenizer's
            // bound: the horizontal position is unchanged and the vertical
            // shift is at most one full input bound
            assert forall|k: int| 0 <= k < t@.len() implies stroke_within(
                #[trigger] t@[k],
                RAW_XY_BOUND as int,
            ) by {
                assert forall|j: int| 0 <= j < t@[k].points.len() implies sample_within(
                    #[trigger] t@[k].points[j],
                    RAW_XY_BOUND as int,
                ) by {
                    assert(t@[k].points[j] == sample_shift(
                        ink@[k].points[j],
                        0,
                        -(row_i * h) as int,
                    ));
                    lemma_ink_contains(ink@, k, j);
                    assert(stroke_within(ink@[k], CLASSIFY_XY_BOUND as int));
                    assert(sample_within(ink@[k].points[j], CLASSIFY_XY_BOUND as int));
                }
            }
            lemma_ink_aggregate_bounds(t@, INK_XY_BOUND as int);
            assert(ink_count(t@) * (3 * INK_XY_BOUND) <= 0x100_0000 * (3 * INK_XY_BOUND))
                by (nonlinear_arith)
                requires
                    0 <= ink_count(t@) <= 0x100_0000,
            ;
            assert(ink_count(t@) * INK_XY_BOUND <= 0x100_0000 * INK_XY_BOUND) by (nonlinear_arith)
                requires
                    0 <= ink_count(t@) <= 0x100_0000,
            ;
        }
        let c2 = st.min_x + st.max_x;
        proof {
            lemma_round_div_abs(c2 as int, (2 * w) as int);
        }
        let r2 = round_div(c2, 2 * w);
        proof {
            assert(-0x800_4000 <= r2 <= 0x800_4000);
            assert(-0x1000_0000_0000 <= r2 * (2 * w) <= 0x1000_0000_0000) by (nonlinear_arith)
                requires
                    -0x800_4000 <= r2 <= 0x800_4000,
                    1 <= w <= 4096,
            ;
        }
        let diff = c2 - r2 * (2 * w);
        let ad = if diff < 0 {
            -diff
        } else {
            diff
        };
        let carat_hit = 10 * ts.min_y < h && 10 * ts.max_y > 9 * h && 2 * (st.max_x - st.min_x) < w
            && 10 * ad < 6 * w && r2 >= 0;
        if carat_hit {
            proof {
                // the carat column offset keeps every sample in range
                if c2 >= 0 {
                    lemma_round_div_bounds(c2 as int, (2 * w) as int);
                    assert(r2 * w <= CLASSIFY_XY_BOUND + w) by (nonlinear_arith)
                        requires
                            r2 * (2 * (w as int)) <= c2 + 2 * (w as int),
                            c2 <= 2 * CLASSIFY_XY_BOUND,
                            w >= 1,
                            r2 >= 0,
                    ;
                } else {
                    assert(r2 == 0) by {
                        lemma_round_div_abs(c2 as int, (2 * w) as int);
                    }
                }
                assert(0 <= r2 * w <= CLASSIFY_XY_BOUND + 4096) by (nonlinear_arith)
                    requires
                        r2 >= 0,
                        1 <= w <= 4096,
                        r2 == 0 || r2 * w <= CLASSIFY_XY_BOUND + w,
                ;
                assert(r2 <= CLASSIFY_XY_BOUND + 4096) by (nonlinear_arith)
                    requires
                        r2 >= 0,
                        w >= 1,
                        r2 * w <= CLASSIFY_XY_BOUND + 4096,
                ;
                assert forall|k: int, j: int|
                    0 <= k < t@.len() && 0 <= j < t@[k].points.len() implies {
                    let p = #[trigger] t@[k].points[j];
                    -INK_XY_BOUND <= p.x + (-(r2 * w)) <= INK_XY_BOUND && -INK_XY_BOUND <= p.y + 0
                        <= INK_XY_BOUND
                } by {
                    assert(stroke_wf(t@[k]));
                    assert(sample_within(t@[k].points[j], INK_XY_BOUND as int));
                    assert(t@[k].points[j].x == ink@[k].points[j].x);
                    lemma_ink_contains(ink@, k, j);
                    assert(stroke_within(ink@[k], CLASSIFY_XY_BOUND as int));
                }
            }
            let ink2 = t.translate(-(r2 * w), 0);
            return Some(InkType::Carat { at: (row_us, r2 as usize), ink: ink2 });
        }
        if c2 < 0 {
            return None;
        }
        let ex = ts.max_x - ts.min_x;
        let ey = ts.max_y - ts.min_y;
        proof {
            assert(ex * ey <= 0x1000_0000_0000_0000 && ex * ey >= 0) by (nonlinear_arith)
                requires
                    0 <= ex <= 2 * INK_XY_BOUND,
                    0 <= ey <= 2 * INK_XY_BOUND,
            ;
        }
        let area0 = ex * ey;
        let area = if area0 < 500 {
            500
        } else {
            area0
        };
        if normal && 5 * (ts.length as i64) >= area {
            proof {
                lemma_floor_div_bounds(c2 as int, (2 * w) as int);
                assert(floor_div_spec(c2 as int, (2 * w) as int) <= c2) by (nonlinear_arith)
                    requires
                        floor_div_spec(c2 as int, (2 * w) as int) * (2 * (w as int)) <= c2 as int,
                        w >= 1,
                        floor_div_spec(c2 as int, (2 * w) as int) >= 0,
                        c2 >= 0,
                ;
            }
            let col = floor_div(c2, 2 * w);
            return Some(InkType::Scratch { at: (row_us, col as usize) });
        }
        if normal {
            proof {
                assert forall|k: int| 0 <= k < t@.len() implies stroke_within(
                    #[trigger] t@[k],
                    RAW_XY_BOUND as int,
                ) by {
                    assert forall|j: int| 0 <= j < t@[k].points.len() implies sample_within(
                        #[trigger] t@[k].points[j],
                        RAW_XY_BOUND as int,
                    ) by {
                        assert(t@[k].points[j] == sample_shift(
                            ink@[k].points[j],
                            0,
                            -(row_i * h) as int,
                        ));
                        lemma_ink_contains(ink@, k, j);
                        assert(stroke_within(ink@[k], CLASSIFY_XY_BOUND as int));
                        assert(sample_within(ink@[k].points[j], CLASSIFY_XY_BOUND as int));
                    }
                }
            }
            let toks = Ink::tokenize(metrics, &t);
            let mut toks = toks;
            let mut tokens: Vec<(Coord, Ink)> = Vec::new();
            let n = toks.len();
            let ghost tv = toks@;
            let mut j: usize = 0;
            while j < n
                invariant
                    j <= n,
                    n == tv.len(),
                    toks@ == tv.skip(j as int),
                    tokens@.len() == j,
                    forall|u: int|
                        0 <= u < j ==> #[trigger] tokens@[u] == ((((row_us, tv[u].0)), tv[u].1)),
                decreases n - j,
            {
                proof {
                    assert(tv.skip(j as int)[0] == tv[j as int]);
                    assert(tv.skip(j as int).skip(1) =~= tv.skip(j + 1 as int));
                }
                let (c, cink) = toks.remove(0);
                tokens.push(((row_us, c), cink));
                j += 1;
            }
            proof {
                let lhs = tokens@.map_values(
                    |p: (Coord, Ink)| (((p.0.0 as int, p.0.1 as int)), p.1@),
                );
                let rhs = tokenize_spec(t@, w as int).map_values(
                    |e: (int, Seq<StrokeView>)| (((row_i as int, e.0)), e.1),
                );
                assert forall|u: int| 0 <= u < lhs.len() implies lhs[u] == rhs[u] by {
                    assert(tokens_view(tv)[u] == (tv[u].0 as int, tv[u].1@));
                }
                assert(lhs =~= rhs);
            }
            return Some(InkType::Glyphs { tokens });
        }
        proof {
            assert(forall|k: int| 0 <= k < t@.len() ==> (#[trigger] t@[k]).points.len() >= 1);
            lemma_ink_sum_le_max(t@);
            lemma_ink_aggregate_bounds(t@, RAW_XY_BOUND as int);
        }
        let cnt2 = ts.count as i64;
        let cx = floor_div(ts.sum_x, cnt2);
        let cy = floor_div(ts.sum_y, cnt2);
        proof {
            lemma_floor_div_between(
                ts.sum_x as int,
                cnt2 as int,
                ink_min_x(t@),
                ink_max_x(t@),
            );
            lemma_floor_div_between(
                ts.sum_y as int,
                cnt2 as int,
                ink_min_y(t@),
                ink_max_y(t@),
            );
            assert forall|k: int, j: int|
                0 <= k < t@.len() && 0 <= j < t@[k].points.len() implies {
                let p = #[trigger] t@[k].points[j];
                -INK_XY_BOUND <= p.x + (-cx) <= INK_XY_BOUND && -INK_XY_BOUND <= p.y + (-cy)
                    <= INK_XY_BOUND
            } by {
                lemma_ink_contains(t@, k, j);
            }
        }
        let t2 = t.translate(-cx, -cy);
        Some(InkType::BigGlyph { token: t2 })
    }
}

} // verus!
