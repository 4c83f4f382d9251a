//! The template store and its closed-loop adaptive learner: per-character
//! template pools, the two recognizer instances built from them, and the
//! bounded candidate queue that turns user corrections into new templates.

use vstd::prelude::*;
use std::collections::VecDeque;
use crate::geom::{
    Ink, Stroke, Sample, StrokeView, Metrics, ink_wf, stroke_wf, ink_within, stroke_within,
    sample_within, round_div_spec, round_div, INK_XY_BOUND,
};
use crate::points::{
    PointCloud, CharRecognizer, CloudPoint, cloud_wf, dist_of, min_dist, min_index, grid_cloud_of,
    shape_cloud_of, cloud_distance, lemma_min_props, recognize,
};
use crate::text_buffer::TextBuffer;
use crate::text_window::rotate_queue;
use crate::config::{Config, extras_spec};

verus! {

/// Characters always present in the template set, even when not explicitly
/// configured.
pub const PRINTABLE_ASCII: &'static str = "0123456789ABCDEFGHIJKLMNOPQRSTUVWXYZabcdefghijklmnopqrstuvwxyz.!\"#$%&'()*+,-/:;<=>?@[\\]^_`{|}~";

/// The cell height used when no configuration provides one.
pub fn default_char_height() -> (h: i32)
    ensures
        h == 40,
{
    40
}

/// The candidate queue holds at most this many unconfirmed guesses.
pub const NUM_CANDIDATES: usize = 64;

/// Template ink is captured within one grid cell; its coordinates stay well
/// within this bound, so that rescaling on load stays in range.
pub const TEMPLATE_XY_BOUND: i64 = 65536;

/// All the template inks that correspond to a particular character.
pub struct CharTemplates {
    pub ch: char,
    pub templates: Vec<Ink>,
}

#[verifier::ext_equal]
pub ghost struct CharTemplatesView {
    pub ch: char,
    pub templates: Seq<Seq<StrokeView>>,
}

impl View for CharTemplates {
    type V = CharTemplatesView;

    open spec fn view(&self) -> CharTemplatesView {
        CharTemplatesView { ch: self.ch, templates: self.templates@.map_values(|i: Ink| i@) }
    }
}

pub open spec fn char_templates_wf(c: CharTemplatesView) -> bool {
    forall|j: int| 0 <= j < c.templates.len() ==> ink_wf(#[trigger] c.templates[j])
}

/// The persisted template data, as plain values: the cell height the inks
/// were captured at, the per-character template pools, and the unconfirmed
/// candidates.
pub struct TemplateFile {
    pub template_height: i32,
    pub templates: Vec<(char, Vec<Ink>)>,
    pub candidate_templates: Vec<(char, Ink)>,
}

/// An unconfirmed guess: the ink, its normalized cloud, and the character it
/// was corrected to.
pub struct Candidate {
    pub ink: Ink,
    pub points: PointCloud,
    pub ch: char,
}

#[verifier::ext_equal]
pub ghost struct CandView {
    pub ink: Seq<StrokeView>,
    pub points: Seq<CloudPoint>,
    pub ch: char,
}

impl View for Candidate {
    type V = CandView;

    open spec fn view(&self) -> CandView {
        CandView { ink: self.ink@, points: self.points@, ch: self.ch }
    }
}

/// The process-wide recognition state: template pools, the two recognizers
/// built from them, the clipboard, and the candidate queue.
pub struct TextStuff {
    pub templates: Vec<CharTemplates>,
    pub char_recognizer: CharRecognizer,
    pub big_recognizer: CharRecognizer,
    pub clipboard: Option<TextBuffer>,
    pub candidate_templates: VecDeque<Candidate>,
}

impl TextStuff {
    pub open spec fn wf(&self) -> bool {
        &&& forall|i: int|
            0 <= i < self.templates@.len() ==> char_templates_wf(#[trigger] self.templates@[i]@)
        &&& self.char_recognizer.wf()
        &&& self.big_recognizer.wf()
        &&& match self.clipboard {
            Some(b) => b.wf(),
            None => true,
        }
        &&& self.candidate_templates@.len() <= NUM_CANDIDATES
        &&& forall|i: int|
            0 <= i < self.candidate_templates@.len() ==> ink_wf(
                (#[trigger] self.candidate_templates@[i]).ink@,
            ) && cloud_wf(self.candidate_templates@[i].points@)
    }

    /// A fresh, empty recognition state.
    pub fn new() -> (r: TextStuff)
        ensures
            r.wf(),
            r.templates@.len() == 0,
            r.candidate_templates@.len() == 0,
            r.char_recognizer.templates@.len() == 0,
            r.big_recognizer.templates@.len() == 0,
            r.clipboard is None,
    {
        TextStuff {
            templates: Vec::new(),
            char_recognizer: CharRecognizer::new(Vec::new()),
            big_recognizer: CharRecognizer::new(Vec::new()),
            clipboard: None,
            candidate_templates: VecDeque::new(),
        }
    }
}

/// The recognition state as plain mathematical values: the template pools,
/// the two recognizers' shapes and characters, the clipboard and the
/// candidate queue.
#[verifier::ext_equal]
pub ghost struct StuffState {
    pub templates: Seq<CharTemplatesView>,
    pub rec_t: Seq<Seq<CloudPoint>>,
    pub rec_c: Seq<char>,
    pub big_t: Seq<Seq<CloudPoint>>,
    pub big_c: Seq<char>,
    pub clipboard: Option<Seq<Seq<char>>>,
    pub cands: Seq<CandView>,
}

impl TextStuff {
    /// The recognition state, as plain values.
    pub open spec fn st(&self) -> StuffState {
        StuffState {
            templates: self.templates@.map_values(|t: CharTemplates| t@),
            rec_t: self.char_recognizer.tviews(),
            rec_c: self.char_recognizer.chars@,
            big_t: self.big_recognizer.tviews(),
            big_c: self.big_recognizer.chars@,
            clipboard: match self.clipboard {
                Some(b) => Some(b@),
                None => None,
            },
            cands: self.candidate_templates@.map_values(|c: Candidate| c@),
        }
    }
}

/// The templates after promoting an ink into a character's pool: the first
/// pool for that character gains the ink at its end, everything else is
/// unchanged; with no pool for the character, nothing changes.
pub open spec fn promote_fn(
    ts: Seq<CharTemplatesView>,
    c: char,
    ink: Seq<StrokeView>,
) -> Seq<CharTemplatesView>
    decreases ts.len(),
{
    if ts.len() == 0 {
        ts
    } else if ts[0].ch == c {
        seq![CharTemplatesView { ch: c, templates: ts[0].templates.push(ink) }] + ts.skip(1)
    } else {
        seq![ts[0]] + promote_fn(ts.skip(1), c, ink)
    }
}

proof fn lemma_promote_at(ts: Seq<CharTemplatesView>, c: char, ink: Seq<StrokeView>, j: int)
    requires
        0 <= j < ts.len(),
        ts[j].ch == c,
        forall|t: int| 0 <= t < j ==> (#[trigger] ts[t]).ch != c,
    ensures
        promote_fn(ts, c, ink) =~= ts.update(
            j,
            CharTemplatesView { ch: c, templates: ts[j].templates.push(ink) },
        ),
    decreases j,
{
    if j > 0 {
        assert(forall|t: int| 0 <= t < ts.len() - 1 ==> ts.skip(1)[t] == ts[t + 1]);
        lemma_promote_at(ts.skip(1), c, ink, j - 1);
        assert(promote_fn(ts, c, ink) =~= seq![ts[0]] + promote_fn(ts.skip(1), c, ink));
        assert(seq![ts[0]] + ts.skip(1).update(
            j - 1,
            CharTemplatesView { ch: c, templates: ts[j].templates.push(ink) },
        ) =~= ts.update(j, CharTemplatesView { ch: c, templates: ts[j].templates.push(ink) }));
    } else {
        assert(seq![CharTemplatesView { ch: c, templates: ts[0].templates.push(ink) }] + ts.skip(
            1,
        ) =~= ts.update(0, CharTemplatesView { ch: c, templates: ts[0].templates.push(ink) }));
    }
}

proof fn lemma_promote_absent(ts: Seq<CharTemplatesView>, c: char, ink: Seq<StrokeView>)
    requires
        forall|t: int| 0 <= t < ts.len() ==> (#[trigger] ts[t]).ch != c,
    ensures
        promote_fn(ts, c, ink) =~= ts,
    decreases ts.len(),
{
    if ts.len() > 0 {
        assert(forall|t: int| 0 <= t < ts.len() - 1 ==> ts.skip(1)[t] == ts[t + 1]);
        lemma_promote_absent(ts.skip(1), c, ink);
        assert(promote_fn(ts, c, ink) =~= seq![ts[0]] + promote_fn(ts.skip(1), c, ink));
    }
}

/// The first index of a candidate strictly closer to the query than `bound`
/// and no farther than every other candidate, if any candidate beats the
/// bound at all.
pub open spec fn best_improving(q: Seq<CloudPoint>, cands: Seq<CandView>, bound: int) -> Option<
    int,
>
    decreases cands.len(),
{
    if cands.len() == 0 {
        None
    } else {
        let front = best_improving(q, cands.drop_last(), bound);
        let l = dist_of(q, cands.last().points);
        match front {
            None => if l < bound {
                Some(cands.len() - 1)
            } else {
                None
            },
            Some(i) => if l < dist_of(q, cands[i].points) {
                Some(cands.len() - 1)
            } else {
                Some(i)
            },
        }
    }
}

/// The best-improving index is a valid index of a candidate that beats the
/// bound, beats or ties every other candidate, and is the first to do so.
pub proof fn lemma_best_improving(q: Seq<CloudPoint>, cands: Seq<CandView>, bound: int)
    ensures
        best_improving(q, cands, bound) is None ==> forall|j: int|
            0 <= j < cands.len() ==> dist_of(q, (#[trigger] cands[j]).points) >= bound,
        best_improving(q, cands, bound) matches Some(i) ==> {
            &&& 0 <= i < cands.len()
            &&& dist_of(q, cands[i].points) < bound
            &&& forall|j: int|
                0 <= j < cands.len() ==> dist_of(q, (#[trigger] cands[j]).points) >= dist_of(
                    q,
                    cands[i].points,
                )
            &&& forall|j: int|
                0 <= j < i ==> dist_of(q, (#[trigger] cands[j]).points) > dist_of(
                    q,
                    cands[i].points,
                )
        },
    decreases cands.len(),
{
    if cands.len() > 0 {
        lemma_best_improving(q, cands.drop_last(), bound);
        assert(forall|j: int| 0 <= j < cands.len() - 1 ==> cands.drop_last()[j] == cands[j]);
    }
}

/// Scan the candidate queue for the entry whose distance to the query is
/// below the bound and minimal; ties keep the earliest entry.
fn scan_candidates(query: &PointCloud, cands: &VecDeque<Candidate>, bound: u64) -> (r: Option<
    usize,
>)
    requires
        cloud_wf(query@),
        forall|i: int| 0 <= i < cands@.len() ==> cloud_wf((#[trigger] cands@[i]).points@),
    ensures
        ({
            let b = best_improving(query@, cands@.map_values(|c: Candidate| c@), bound as int);
            match r {
                None => b is None,
                Some(i) => b == Some(i as int),
            }
        }),
{
    let ghost cv = cands@.map_values(|c: Candidate| c@);
    let mut best: Option<usize> = None;
    let n = cands.len();
    let mut j: usize = 0;
    while j < n
        invariant
            j <= n,
            n == cands@.len(),
            cloud_wf(query@),
            forall|i: int| 0 <= i < cands@.len() ==> cloud_wf((#[trigger] cands@[i]).points@),
            cv == cands@.map_values(|c: Candidate| c@),
            ({
                let b = best_improving(query@, cv.take(j as int), bound as int);
                match best {
                    None => b is None,
                    Some(i) => b == Some(i as int) && i < j,
                }
            }),
        decreases n - j,
    {
        proof {
            assert(cv.take(j + 1 as int).drop_last() =~= cv.take(j as int));
            assert(cv.take(j + 1 as int).last() == cv[j as int]);
            assert(forall|t: int| 0 <= t < j ==> cv.take(j as int)[t] == cv[t]);
            assert(cv[j as int] == cands@[j as int]@);
        }
        let d = cloud_distance(query, &cands[j].points);
        match best {
            None => {
                if d < bound {
                    best = Some(j);
                }
            },
            Some(i) => {
                let di = cloud_distance(query, &cands[i].points);
                if d < di {
                    best = Some(j);
                }
            },
        }
        j += 1;
    }
    proof {
        assert(cv.take(n as int) =~= cv);
    }
    best
}

/// The full effect of one correction on the recognition state, and the
/// candidate evicted by it, if any. If the recognizer would still guess
/// wrong, the closest improving candidate is promoted to a permanent
/// template when it was stored under the corrected character and discarded
/// when it was not; with no improving candidate the correction is enqueued,
/// evicting the oldest entry when the queue is full. The recognizers and
/// the clipboard are untouched.
pub open spec fn overwrite_tr(
    st: StuffState,
    ink: Seq<StrokeView>,
    points: Seq<CloudPoint>,
    best: char,
) -> (StuffState, Option<CandView>) {
    if st.rec_t.len() == 0 {
        (st, None)
    } else {
        let old_char = st.rec_c[min_index(points, st.rec_t)];
        let old_score = min_dist(points, st.rec_t);
        if old_char == best {
            (st, None)
        } else {
            match best_improving(points, st.cands, old_score) {
                Some(i) => if st.cands[i].ch == best {
                    (
                        StuffState {
                            templates: promote_fn(st.templates, best, st.cands[i].ink),
                            cands: st.cands.remove(i),
                            ..st
                        },
                        None,
                    )
                } else {
                    (StuffState { cands: st.cands.remove(i), ..st }, None)
                },
                None => {
                    let cv = CandView { ink, points, ch: best };
                    if st.cands.len() >= NUM_CANDIDATES {
                        (
                            StuffState { cands: st.cands.skip(1).push(cv), ..st },
                            Some(st.cands[0]),
                        )
                    } else {
                        (StuffState { cands: st.cands.push(cv), ..st }, None)
                    }
                },
            }
        }
    }
}

impl TextStuff {
    /// Feed one user correction into the learning loop. If the recognizer
    /// would still guess wrong, the closest improving candidate is promoted
    /// to a permanent template when it was stored under the corrected
    /// character, discarded when it was not; with no improving candidate the
    /// correction is enqueued as a new candidate, evicting (and returning)
    /// the oldest entry when the queue is full.
    pub fn on_overwrite(&mut self, ink: Ink, points: PointCloud, best: char) -> (evicted: Option<
        Candidate,
    >)
        requires
            old(self).wf(),
            ink.wf(),
            cloud_wf(points@),
        ensures
            final(self).wf(),
            final(self).char_recognizer == old(self).char_recognizer,
            final(self).big_recognizer == old(self).big_recognizer,
            final(self).clipboard == old(self).clipboard,
            ({
                let (st2, ev) = overwrite_tr(old(self).st(), ink@, points@, best);
                &&& final(self).st() == st2
                &&& (match evicted {
                    Option::None => ev is None,
                    Option::Some(c) => ev == Some(c@),
                })
            }),
    {
        let ghost st0 = self.st();
        if self.char_recognizer.templates.len() == 0 {
            return None;
        }
        proof {
            assert(forall|t: int|
                0 <= t < self.char_recognizer.templates@.len() ==> cloud_wf(
                    (#[trigger] self.char_recognizer.templates@[t])@,
                ));
        }
        let (index, old_score) = recognize(&points, &self.char_recognizer.templates);
        proof {
            lemma_min_props(points@, self.char_recognizer.tviews());
        }
        let old_char = self.char_recognizer.chars[index];
        if old_char == best {
            return None;
        }
        let found = scan_candidates(&points, &self.candidate_templates, old_score);
        let ghost cv0 = self.candidate_templates@.map_values(|c: Candidate| c@);
        match found {
            Some(i) => {
                proof {
                    lemma_best_improving(points@, cv0, old_score as int);
                }
                let ghost qpre = self.candidate_templates@;
                let cand = match self.candidate_templates.remove(i) {
                    Some(c) => c,
                    None => {
                        proof {
                            assert(false);
                        }
                        return None;
                    },
                };
                proof {
                    assert(self.candidate_templates@.map_values(|c: Candidate| c@) =~= cv0.remove(
                        i as int,
                    )) by {
                        assert forall|t: int|
                            0 <= t < self.candidate_templates@.len() implies
                            self.candidate_templates@.map_values(|c: Candidate| c@)[t]
                            == cv0.remove(i as int)[t] by {
                            if t < i {
                                assert(self.candidate_templates@[t] == qpre[t]);
                            } else {
                                assert(self.candidate_templates@[t] == qpre[t + 1]);
                            }
                        }
                    }
                    assert(cand@ == cv0[i as int]);
                }
                if cand.ch == best {
                    // positive reinforcement: promote to a permanent template
                    self.promote_template(best, cand.ink);
                } else {
                    // negative reinforcement: the candidate was a red herring
                }
                proof {
                    assert(self.st() =~~= overwrite_tr(st0, ink@, points@, best).0);
                }
                None
            },
            None => {
                // this might be a good candidate for a template; track it
                let ghost qpre = self.candidate_templates@;
                let cnd = Candidate { ink, points, ch: best };
                let ghost cndv = cnd@;
                let evicted = rotate_queue(&mut self.candidate_templates, cnd, NUM_CANDIDATES);
                proof {
                    let post = self.candidate_templates@.map_values(|c: Candidate| c@);
                    if qpre.len() == NUM_CANDIDATES {
                        assert(self.candidate_templates@ == qpre.skip(1).push(cnd));
                        assert forall|t: int| 0 <= t < post.len() implies post[t] == cv0.skip(
                            1,
                        ).push(cndv)[t] by {
                            if t < post.len() - 1 {
                                assert(self.candidate_templates@[t] == qpre[t + 1]);
                            } else {
                                assert(self.candidate_templates@[t] == cnd);
                            }
                        }
                        assert(post =~= cv0.skip(1).push(cndv));
                    } else {
                        assert(self.candidate_templates@ == qpre.push(cnd));
                        assert forall|t: int| 0 <= t < post.len() implies post[t] == cv0.push(
                            cndv,
                        )[t] by {
                            if t < post.len() - 1 {
                                assert(self.candidate_templates@[t] == qpre[t]);
                            } else {
                                assert(self.candidate_templates@[t] == cnd);
                            }
                        }
                        assert(post =~= cv0.push(cndv));
                    }
                    assert(self.st() =~~= overwrite_tr(st0, ink@, points@, best).0);
                    match &evicted {
                        Option::None => {},
                        Option::Some(c) => {
                            assert(c@ == cv0[0]);
                        },
                    }
                }
                evicted
            },
        }
    }

    /// Append the ink to the template pool of the given character, if that
    /// character has a pool.
    fn promote_template(&mut self, best: char, ink: Ink)
        requires
            old(self).wf(),
            ink.wf(),
        ensures
            final(self).wf(),
            final(self).templates@.map_values(|t: CharTemplates| t@) == promote_fn(
                old(self).templates@.map_values(|t: CharTemplates| t@),
                best,
                ink@,
            ),
            final(self).char_recognizer == old(self).char_recognizer,
            final(self).big_recognizer == old(self).big_recognizer,
            final(self).clipboard == old(self).clipboard,
            final(self).candidate_templates == old(self).candidate_templates,
    {
        let n = self.templates.len();
        let mut j: usize = 0;
        while j < n
            invariant
                j <= n,
                n == self.templates@.len(),
                self.wf(),
                ink.wf(),
                forall|t: int| 0 <= t < j ==> (#[trigger] self.templates@[t]).ch != best,
                self.templates == old(self).templates,
                self.char_recognizer == old(self).char_recognizer,
                self.big_recognizer == old(self).big_recognizer,
                self.clipboard == old(self).clipboard,
                self.candidate_templates == old(self).candidate_templates,
            decreases n - j,
        {
            if self.templates[j].ch == best {
                let ghost before = self.templates@;
                let ghost bv = before.map_values(|t: CharTemplates| t@);
                let entry = &mut self.templates[j];
                entry.templates.push(ink);
                proof {
                    assert(self.templates@[j as int]@.templates =~= before[j as int]@.templates.push(
                        ink@,
                    ));
                    assert(forall|t: int|
                        0 <= t < before.len() && t != j ==> self.templates@[t] == before[t]);
                    assert(char_templates_wf(self.templates@[j as int]@));
                    assert(forall|t: int| 0 <= t < j ==> (#[trigger] bv[t]).ch != best);
                    lemma_promote_at(bv, best, ink@, j as int);
                    let post = self.templates@.map_values(|t: CharTemplates| t@);
                    assert forall|t: int| 0 <= t < post.len() implies post[t] == promote_fn(
                        bv,
                        best,
                        ink@,
                    )[t] by {
                        if t != j {
                            assert(self.templates@[t] == before[t]);
                        } else {
                            assert(post[t] =~~= (CharTemplatesView {
                                ch: best,
                                templates: bv[t].templates.push(ink@),
                            }));
                        }
                    }
                    assert(post =~= promote_fn(bv, best, ink@));
                }
                return ;
            }
            j += 1;
        }
        proof {
            let bv = old(self).templates@.map_values(|t: CharTemplates| t@);
            assert(forall|t: int| 0 <= t < bv.len() ==> (#[trigger] bv[t]).ch != best);
            lemma_promote_absent(bv, best, ink@);
            assert(self.templates@.map_values(|t: CharTemplates| t@) =~= bv);
        }
    }
}

/// The reserved gesture-command characters.
pub open spec fn is_gesture_char(c: char) -> bool {
    c == 'X' || c == 'C' || c == 'V' || c == 'S' || c == '>' || c == '<' || c == 'Q' || c == 'N'
        || c == 'P'
}

fn gesture_char(c: char) -> (r: bool)
    ensures
        r == is_gesture_char(c),
{
    c == 'X' || c == 'C' || c == 'V' || c == 'S' || c == '>' || c == '<' || c == 'Q' || c == 'N'
        || c == 'P'
}

/// The template inks that survive the degenerate-template filter: at least
/// two samples.
pub open spec fn filter_small(ts: Seq<Seq<StrokeView>>) -> Seq<Seq<StrokeView>>
    decreases ts.len(),
{
    if ts.len() == 0 {
        Seq::<Seq<StrokeView>>::empty()
    } else {
        let front = filter_small(ts.drop_last());
        if crate::geom::ink_count(ts.last()) >= 2 {
            front.push(ts.last())
        } else {
            front
        }
    }
}

/// The (cloud, character) template pairs the text recognizer is built from:
/// every surviving template of every pool, in order, normalized relative to
/// the grid.
pub open spec fn grid_pairs(ts: Seq<CharTemplatesView>, h: int, w: int, base: int) -> Seq<
    (Seq<CloudPoint>, char),
>
    decreases ts.len(),
{
    if ts.len() == 0 {
        Seq::<(Seq<CloudPoint>, char)>::empty()
    } else {
        grid_pairs(ts.drop_last(), h, w, base) + filter_small(ts.last().templates).map_values(
            |i: Seq<StrokeView>| (grid_cloud_of(i, h, w, base), ts.last().ch),
        )
    }
}

/// The (cloud, character) pairs the gesture recognizer is built from: the
/// surviving templates of the reserved gesture characters only, normalized
/// by their own shape.
pub open spec fn shape_pairs(ts: Seq<CharTemplatesView>) -> Seq<(Seq<CloudPoint>, char)>
    decreases ts.len(),
{
    if ts.len() == 0 {
        Seq::<(Seq<CloudPoint>, char)>::empty()
    } else {
        shape_pairs(ts.drop_last()) + (if is_gesture_char(ts.last().ch) {
            filter_small(ts.last().templates).map_values(
                |i: Seq<StrokeView>| (shape_cloud_of(i), ts.last().ch),
            )
        } else {
            Seq::<(Seq<CloudPoint>, char)>::empty()
        })
    }
}

impl TextStuff {
    /// Discard degenerate templates (fewer than two samples), then rebuild
    /// both recognizer instances from the current template pools.
    pub fn init_recognizer(&mut self, metrics: &Metrics)
        requires
            old(self).wf(),
            metrics.wf(),
        ensures
            final(self).wf(),
            ({
                let ts = final(self).templates@.map_values(|c: CharTemplates| c@);
                let h = metrics.height as int;
                let w = metrics.width as int;
                let base = metrics.baseline as int;
                &&& final(self).templates@.len() == old(self).templates@.len()
                &&& forall|t: int|
                    0 <= t < ts.len() ==> (#[trigger] ts[t]).ch == old(self).templates@[t]@.ch
                        && ts[t].templates == filter_small(old(self).templates@[t]@.templates)
                &&& final(self).char_recognizer.tviews() == grid_pairs(ts, h, w, base).map_values(
                    |p: (Seq<CloudPoint>, char)| p.0,
                )
                &&& final(self).char_recognizer.chars@ == grid_pairs(ts, h, w, base).map_values(
                    |p: (Seq<CloudPoint>, char)| p.1,
                )
                &&& final(self).big_recognizer.tviews() == shape_pairs(ts).map_values(
                    |p: (Seq<CloudPoint>, char)| p.0,
                )
                &&& final(self).big_recognizer.chars@ == shape_pairs(ts).map_values(
                    |p: (Seq<CloudPoint>, char)| p.1,
                )
            }),
            final(self).clipboard == old(self).clipboard,
            final(self).candidate_templates == old(self).candidate_templates,
    {
        let ghost h = metrics.height as int;
        let ghost w = metrics.width as int;
        let ghost base = metrics.baseline as int;
        // discard trivial or invalid templates
        let n = self.templates.len();
        let mut k: usize = 0;
        while k < n
            invariant
                k <= n,
                n == self.templates@.len(),
                n == old(self).templates@.len(),
                forall|t: int|
                    0 <= t < n ==> char_templates_wf(#[trigger] self.templates@[t]@),
                forall|t: int|
                    k <= t < n ==> #[trigger] self.templates@[t] == old(self).templates@[t],
                forall|t: int|
                    0 <= t < k ==> (#[trigger] self.templates@[t]).ch == old(
                        self,
                    ).templates@[t]@.ch && self.templates@[t]@.templates == filter_small(
                        old(self).templates@[t]@.templates,
                    ),
                self.char_recognizer == old(self).char_recognizer,
                self.big_recognizer == old(self).big_recognizer,
                self.clipboard == old(self).clipboard,
                self.candidate_templates == old(self).candidate_templates,
            decreases n - k,
        {
            let ghost pool0 = self.templates@[k as int]@.templates;
            let m = self.templates[k].templates.len();
            let mut kept: Vec<Ink> = Vec::new();
            let mut j: usize = 0;
            while j < m
                invariant
                    j <= m,
                    k < self.templates@.len(),
                    m == self.templates@[k as int]@.templates.len(),
                    pool0 == self.templates@[k as int]@.templates,
                    char_templates_wf(self.templates@[k as int]@),
                    kept@.map_values(|i: Ink| i@) == filter_small(pool0.take(j as int)),
                    forall|t: int| 0 <= t < kept@.len() ==> ink_wf(#[trigger] kept@[t]@),
                decreases m - j,
            {
                proof {
                    assert(pool0.take(j + 1 as int).drop_last() =~= pool0.take(j as int));
                    assert(pool0.take(j + 1 as int).last() == pool0[j as int]);
                    assert(self.templates@[k as int]@.templates[j as int]
                        == self.templates@[k as int].templates@[j as int]@);
                    assert(ink_wf(pool0[j as int]));
                }
                let ink = &self.templates[k].templates[j];
                let st = ink.stats();
                if st.count >= 2 {
                    let copy = ink.duplicate();
                    kept.push(copy);
                    proof {
                        assert(kept@.map_values(|i: Ink| i@) =~= filter_small(
                            pool0.take(j as int),
                        ).push(pool0[j as int]));
                    }
                }
                j += 1;
            }
            proof {
                assert(pool0.take(m as int) =~= pool0);
            }
            let entry = &mut self.templates[k];
            entry.templates = kept;
            proof {
                assert(self.templates@[k as int]@.templates == filter_small(pool0));
                assert(char_templates_wf(self.templates@[k as int]@));
            }
            k += 1;
        }
        // rebuild the text recognizer over every character's templates
        let ghost ts = self.templates@.map_values(|c: CharTemplates| c@);
        let mut pairs: Vec<(PointCloud, char)> = Vec::new();
        let mut big_pairs: Vec<(PointCloud, char)> = Vec::new();
        let n2 = self.templates.len();
        let mut k2: usize = 0;
        while k2 < n2
            invariant
                k2 <= n2,
                n2 == self.templates@.len(),
                ts == self.templates@.map_values(|c: CharTemplates| c@),
                forall|t: int| 0 <= t < n2 ==> char_templates_wf(#[trigger] self.templates@[t]@),
                metrics.wf(),
                h == metrics.height as int,
                w == metrics.width as int,
                base == metrics.baseline as int,
                pairs@.map_values(|p: (PointCloud, char)| (p.0@, p.1)) == grid_pairs(
                    ts.take(k2 as int),
                    h,
                    w,
                    base,
                ),
                big_pairs@.map_values(|p: (PointCloud, char)| (p.0@, p.1)) == shape_pairs(
                    ts.take(k2 as int),
                ),
                forall|t: int| 0 <= t < pairs@.len() ==> cloud_wf((#[trigger] pairs@[t]).0@),
                forall|t: int| 0 <= t < big_pairs@.len() ==> cloud_wf((#[trigger] big_pairs@[t]).0@),
            decreases n2 - k2,
        {
            proof {
                assert(ts.take(k2 + 1 as int).drop_last() =~= ts.take(k2 as int));
                assert(ts.take(k2 + 1 as int).last() == ts[k2 as int]);
                assert(ts[k2 as int] == self.templates@[k2 as int]@);
            }
            let entry = &self.templates[k2];
            let ch = entry.ch;
            let is_big = gesture_char(ch);
            let ghost pool = entry@.templates;
            let ghost gpre = pairs@.map_values(|p: (PointCloud, char)| (p.0@, p.1));
            let ghost spre = big_pairs@.map_values(|p: (PointCloud, char)| (p.0@, p.1));
            let m = entry.templates.len();
            let mut j: usize = 0;
            while j < m
                invariant
                    j <= m,
                    k2 < self.templates@.len(),
                    entry == &self.templates[k2 as int],
                    m == pool.len(),
                    pool == entry@.templates,
                    char_templates_wf(entry@),
                    ch == entry.ch,
                    is_big == is_gesture_char(ch),
                    metrics.wf(),
                    h == metrics.height as int,
                    w == metrics.width as int,
                    base == metrics.baseline as int,
                    pairs@.map_values(|p: (PointCloud, char)| (p.0@, p.1)) == gpre + filter_small(
                        pool.take(j as int),
                    ).map_values(|i: Seq<StrokeView>| (grid_cloud_of(i, h, w, base), ch)),
                    big_pairs@.map_values(|p: (PointCloud, char)| (p.0@, p.1)) == spre + (
                    if is_gesture_char(ch) {
                        filter_small(pool.take(j as int)).map_values(
                            |i: Seq<StrokeView>| (shape_cloud_of(i), ch),
                        )
                    } else {
                        Seq::<(Seq<CloudPoint>, char)>::empty()
                    }),
                    forall|t: int| 0 <= t < pairs@.len() ==> cloud_wf((#[trigger] pairs@[t]).0@),
                    forall|t: int|
                        0 <= t < big_pairs@.len() ==> cloud_wf((#[trigger] big_pairs@[t]).0@),
                decreases m - j,
            {
                proof {
                    assert(pool.take(j + 1 as int).drop_last() =~= pool.take(j as int));
                    assert(pool.take(j + 1 as int).last() == pool[j as int]);
                    assert(pool[j as int] == entry.templates@[j as int]@);
                    assert(ink_wf(pool[j as int]));
                }
                let ink = &entry.templates[j];
                let st = ink.stats();
                if st.count >= 2 {
                    proof {
                        if ink@.len() == 0 {
                            assert(ink@ =~= Seq::<StrokeView>::empty());
                            assert(crate::geom::ink_count(Seq::<StrokeView>::empty()) == 0);
                        }
                    }
                    let cloud = PointCloud::from_ink_grid(ink, metrics);
                    pairs.push((cloud, ch));
                    proof {
                        let fg = |i: Seq<StrokeView>| (grid_cloud_of(i, h, w, base), ch);
                        let f0 = filter_small(pool.take(j as int));
                        let f1 = filter_small(pool.take(j + 1 as int));
                        assert(f1 == f0.push(pool[j as int]));
                        assert(cloud@ == grid_cloud_of(pool[j as int], h, w, base));
                        assert(f1.map_values(fg) =~= f0.map_values(fg).push((cloud@, ch)));
                        assert(gpre + f1.map_values(fg) =~= (gpre + f0.map_values(fg)).push(
                            (cloud@, ch),
                        ));
                        assert(pairs@.map_values(|p: (PointCloud, char)| (p.0@, p.1)) =~= (gpre
                            + f0.map_values(fg)).push((cloud@, ch)));
                        assert(pairs@.map_values(|p: (PointCloud, char)| (p.0@, p.1)) == gpre
                            + f1.map_values(fg));
                    }
                    if is_big {
                        let shape = PointCloud::from_ink_shape(ink);
                        big_pairs.push((shape, ch));
                        proof {
                            let fs = |i: Seq<StrokeView>| (shape_cloud_of(i), ch);
                            let f0 = filter_small(pool.take(j as int));
                            let f1 = filter_small(pool.take(j + 1 as int));
                            assert(f1 == f0.push(pool[j as int]));
                            assert(shape@ == shape_cloud_of(pool[j as int]));
                            assert(f1.map_values(fs) =~= f0.map_values(fs).push((shape@, ch)));
                            assert(spre + f1.map_values(fs) =~= (spre + f0.map_values(fs)).push(
                                (shape@, ch),
                            ));
                            assert(big_pairs@.map_values(|p: (PointCloud, char)| (p.0@, p.1)) =~= (
                            spre + f0.map_values(fs)).push((shape@, ch)));
                            assert(big_pairs@.map_values(|p: (PointCloud, char)| (p.0@, p.1))
                                == spre + f1.map_values(fs));
                        }
                    } else {
                        proof {
                            assert(big_pairs@.map_values(|p: (PointCloud, char)| (p.0@, p.1)) =~=
                                spre);
                        }
                    }
                } else {
                    proof {
                        assert(pairs@.map_values(|p: (PointCloud, char)| (p.0@, p.1)) =~= gpre
                            + filter_small(pool.take(j + 1 as int)).map_values(
                            |i: Seq<StrokeView>| (grid_cloud_of(i, h, w, base), ch),
                        ));
                        if is_gesture_char(ch) {
                            assert(big_pairs@.map_values(|p: (PointCloud, char)| (p.0@, p.1)) =~=
                                spre + filter_small(pool.take(j + 1 as int)).map_values(
                                |i: Seq<StrokeView>| (shape_cloud_of(i), ch),
                            ));
                        }
                    }
                }
                j += 1;
            }
            proof {
                assert(pool.take(m as int) =~= pool);
                assert(pairs@.map_values(|p: (PointCloud, char)| (p.0@, p.1)) =~= grid_pairs(
                    ts.take(k2 + 1 as int),
                    h,
                    w,
                    base,
                ));
                assert(big_pairs@.map_values(|p: (PointCloud, char)| (p.0@, p.1)) =~= shape_pairs(
                    ts.take(k2 + 1 as int),
                ));
            }
            k2 += 1;
        }
        proof {
            assert(ts.take(n2 as int) =~= ts);
        }
        let ghost gp = pairs@.map_values(|p: (PointCloud, char)| (p.0@, p.1));
        let ghost sp = big_pairs@.map_values(|p: (PointCloud, char)| (p.0@, p.1));
        self.char_recognizer = CharRecognizer::new(pairs);
        self.big_recognizer = CharRecognizer::new(big_pairs);
        proof {
            assert(self.char_recognizer.tviews() =~= gp.map_values(
                |p: (Seq<CloudPoint>, char)| p.0,
            ));
            assert(self.char_recognizer.chars@ =~= gp.map_values(
                |p: (Seq<CloudPoint>, char)| p.1,
            ));
            assert(self.big_recognizer.tviews() =~= sp.map_values(
                |p: (Seq<CloudPoint>, char)| p.0,
            ));
            assert(self.big_recognizer.chars@ =~= sp.map_values(|p: (Seq<CloudPoint>, char)| p.1));
        }
    }
}

// ---- loading persisted templates ----

/// A sample rescaled by `hn / ho`, rounding to the nearest pixel.
pub open spec fn scale_sample(p: Sample, hn: int, ho: int) -> Sample {
    Sample {
        x: round_div_spec(p.x * hn, ho) as i32,
        y: round_div_spec(p.y * hn, ho) as i32,
        pressure: p.pressure,
    }
}

pub open spec fn scale_stroke(s: StrokeView, hn: int, ho: int) -> StrokeView {
    StrokeView {
        points: s.points.map_values(|p: Sample| scale_sample(p, hn, ho)),
        t_min: s.t_min,
        t_max: s.t_max,
    }
}

pub open spec fn scale_ink(i: Seq<StrokeView>, hn: int, ho: int) -> Seq<StrokeView> {
    i.map_values(|s: StrokeView| scale_stroke(s, hn, ho))
}

/// The characters of `s` with later duplicates removed.
pub open spec fn dedup_chars(s: Seq<char>) -> Seq<char>
    decreases s.len(),
{
    if s.len() == 0 {
        Seq::<char>::empty()
    } else {
        let front = dedup_chars(s.drop_last());
        if front.contains(s.last()) {
            front
        } else {
            front.push(s.last())
        }
    }
}

/// The first stored pool for a character, or an empty pool.
pub open spec fn lookup_pool(entries: Seq<(char, Seq<Seq<StrokeView>>)>, c: char) -> Seq<
    Seq<StrokeView>,
>
    decreases entries.len(),
{
    if entries.len() == 0 {
        Seq::<Seq<StrokeView>>::empty()
    } else if entries[0].0 == c {
        entries[0].1
    } else {
        lookup_pool(entries.skip(1), c)
    }
}

proof fn lemma_lookup_at(entries: Seq<(char, Seq<Seq<StrokeView>>)>, c: char, j: int)
    requires
        0 <= j < entries.len(),
        entries[j].0 == c,
        forall|t: int| 0 <= t < j ==> (#[trigger] entries[t]).0 != c,
    ensures
        lookup_pool(entries, c) == entries[j].1,
    decreases j,
{
    if j > 0 {
        assert(forall|t: int|
            0 <= t < entries.len() - 1 ==> entries.skip(1)[t] == entries[t + 1]);
        lemma_lookup_at(entries.skip(1), c, j - 1);
    }
}

proof fn lemma_lookup_absent(entries: Seq<(char, Seq<Seq<StrokeView>>)>, c: char)
    requires
        forall|t: int| 0 <= t < entries.len() ==> (#[trigger] entries[t]).0 != c,
    ensures
        lookup_pool(entries, c) == Seq::<Seq<StrokeView>>::empty(),
    decreases entries.len(),
{
    if entries.len() > 0 {
        assert(forall|t: int|
            0 <= t < entries.len() - 1 ==> entries.skip(1)[t] == entries[t + 1]);
        lemma_lookup_absent(entries.skip(1), c);
    }
}

/// The stored entries whose characters are not in the default set, in order,
/// rescaled.
/// One stored entry, rescaled, as a template pool.
pub open spec fn leftover_view(e: (char, Seq<Seq<StrokeView>>), hn: int, ho: int) -> CharTemplatesView {
    CharTemplatesView {
        ch: e.0,
        templates: e.1.map_values(|i: Seq<StrokeView>| scale_ink(i, hn, ho)),
    }
}

pub open spec fn leftover_pools(
    entries: Seq<(char, Seq<Seq<StrokeView>>)>,
    cs: Seq<char>,
    hn: int,
    ho: int,
) -> Seq<CharTemplatesView>
    decreases entries.len(),
{
    if entries.len() == 0 {
        Seq::<CharTemplatesView>::empty()
    } else {
        let front = leftover_pools(entries.drop_last(), cs, hn, ho);
        if cs.contains(entries.last().0) {
            front
        } else {
            front.push(leftover_view(entries.last(), hn, ho))
        }
    }
}

/// The pool one working character gets on load: its stored templates,
/// rescaled.
pub open spec fn loaded_pool_view(
    entries: Seq<(char, Seq<Seq<StrokeView>>)>,
    c: char,
    hn: int,
    ho: int,
) -> CharTemplatesView {
    CharTemplatesView {
        ch: c,
        templates: lookup_pool(entries, c).map_values(|i: Seq<StrokeView>| scale_ink(i, hn, ho)),
    }
}

/// The template pools after loading a file: one pool per character of the
/// working set (the default printable characters plus the configured
/// extras, deduplicated), each holding that character's stored templates
/// rescaled, followed by the stored pools of any other characters.
pub open spec fn loaded_templates(
    cs: Seq<char>,
    entries: Seq<(char, Seq<Seq<StrokeView>>)>,
    hn: int,
    ho: int,
) -> Seq<CharTemplatesView> {
    cs.map_values(|c: char| loaded_pool_view(entries, c, hn, ho)) + leftover_pools(
        entries,
        cs,
        hn,
        ho,
    )
}

/// One ink rescaled by `hn / ho`.
fn scale_ink_exec(ink: &Ink, hn: i64, ho: i64) -> (r: Ink)
    requires
        ink.wf(),
        ink_within(ink@, TEMPLATE_XY_BOUND as int),
        1 <= hn <= 4096,
        1 <= ho <= 4096,
    ensures
        r@ == scale_ink(ink@, hn as int, ho as int),
        r.wf(),
        r@.len() == ink@.len(),
{
    let mut strokes: Vec<Stroke> = Vec::new();
    let n = ink.strokes.len();
    let mut k: usize = 0;
    while k < n
        invariant
            k <= n,
            n == ink@.len(),
            ink.wf(),
            ink_within(ink@, TEMPLATE_XY_BOUND as int),
            1 <= hn <= 4096,
            1 <= ho <= 4096,
            strokes@.len() == k,
            forall|t: int|
                0 <= t < k ==> #[trigger] strokes@[t]@ == scale_stroke(
                    ink@[t],
                    hn as int,
                    ho as int,
                ) && stroke_wf(strokes@[t]@),
        decreases n - k,
    {
        proof {
            assert(ink@[k as int] == ink.strokes@[k as int]@);
            assert(stroke_wf(ink@[k as int]));
            assert(stroke_within(ink@[k as int], TEMPLATE_XY_BOUND as int));
        }
        let stroke = &ink.strokes[k];
        let m = stroke.points.len();
        let mut points: Vec<Sample> = Vec::new();
        let mut j: usize = 0;
        while j < m
            invariant
                j <= m,
                m == stroke@.points.len(),
                stroke_wf(stroke@),
                stroke_within(stroke@, TEMPLATE_XY_BOUND as int),
                1 <= hn <= 4096,
                1 <= ho <= 4096,
                points@.len() == j,
                forall|t: int|
                    0 <= t < j ==> #[trigger] points@[t] == scale_sample(
                        stroke@.points[t],
                        hn as int,
                        ho as int,
                    ) && sample_within(points@[t], INK_XY_BOUND as int),
            decreases m - j,
        {
            let p = stroke.points[j];
            proof {
                assert(sample_within(stroke@.points[j as int], TEMPLATE_XY_BOUND as int));
                crate::ink_type::lemma_round_div_abs(p.x as int * hn as int, ho as int);
                crate::ink_type::lemma_round_div_abs(p.y as int * hn as int, ho as int);
                assert(-0x1000_0000 <= (p.x as int) * (hn as int) <= 0x1000_0000
                    && -0x1000_0000 <= (p.y as int) * (hn as int) <= 0x1000_0000)
                    by (nonlinear_arith)
                    requires
                        -TEMPLATE_XY_BOUND <= p.x <= TEMPLATE_XY_BOUND,
                        -TEMPLATE_XY_BOUND <= p.y <= TEMPLATE_XY_BOUND,
                        1 <= hn <= 4096,
                ;
                assert(crate::ink_type::absi(
                    round_div_spec((p.x as int) * (hn as int), ho as int),
                ) <= 0x1000_0000 + 4096) by (nonlinear_arith)
                    requires
                        crate::ink_type::absi(
                            round_div_spec((p.x as int) * (hn as int), ho as int),
                        ) * (ho as int) <= crate::ink_type::absi((p.x as int) * (hn as int)) + (
                        ho as int),
                        crate::ink_type::absi((p.x as int) * (hn as int)) <= 0x1000_0000,
                        1 <= ho <= 4096,
                ;
                assert(crate::ink_type::absi(
                    round_div_spec((p.y as int) * (hn as int), ho as int),
                ) <= 0x1000_0000 + 4096) by (nonlinear_arith)
                    requires
                        crate::ink_type::absi(
                            round_div_spec((p.y as int) * (hn as int), ho as int),
                        ) * (ho as int) <= crate::ink_type::absi((p.y as int) * (hn as int)) + (
                        ho as int),
                        crate::ink_type::absi((p.y as int) * (hn as int)) <= 0x1000_0000,
                        1 <= ho <= 4096,
                ;
            }
            let nx = round_div(p.x as i64 * hn, ho);
            let ny = round_div(p.y as i64 * hn, ho);
            points.push(Sample { x: nx as i32, y: ny as i32, pressure: p.pressure });
            j += 1;
        }
        let out = Stroke { points, t_min: stroke.t_min, t_max: stroke.t_max };
        proof {
            assert(out@.points =~= scale_stroke(stroke@, hn as int, ho as int).points);
            assert(out@ =~~= scale_stroke(stroke@, hn as int, ho as int));
        }
        strokes.push(out);
        k += 1;
    }
    let r = Ink { strokes };
    proof {
        assert forall|t: int| 0 <= t < r@.len() implies r@[t] == scale_ink(
            ink@,
            hn as int,
            ho as int,
        )[t] by {
            assert(r@[t] == strokes@[t]@);
        }
        assert(r@ =~= scale_ink(ink@, hn as int, ho as int));
    }
    r
}

fn char_at(v: &Vec<char>, i: usize) -> (c: char)
    requires
        i < v@.len(),
    ensures
        c == v@[i as int],
{
    v[i]
}

fn pool_char_at(v: &Vec<(char, Vec<Ink>)>, i: usize) -> (c: char)
    requires
        i < v@.len(),
    ensures
        c == v@[i as int].0,
{
    v[i].0
}

fn cand_char_at(v: &Vec<(char, Ink)>, i: usize) -> (c: char)
    requires
        i < v@.len(),
    ensures
        c == v@[i as int].0,
{
    v[i].0
}

fn contains_char(v: &Vec<char>, c: char) -> (r: bool)
    ensures
        r == v@.contains(c),
{
    let n = v.len();
    let mut j: usize = 0;
    while j < n
        invariant
            j <= n,
            n == v@.len(),
            forall|t: int| 0 <= t < j ==> v@[t] != c,
        decreases n - j,
    {
        if v[j] == c {
            return true;
        }
        j += 1;
    }
    proof {
        assert(!v@.contains(c));
    }
    false
}

/// The stored pools, as plain views.
pub open spec fn file_entries(f: Seq<(char, Vec<Ink>)>) -> Seq<(char, Seq<Seq<StrokeView>>)> {
    f.map_values(|e: (char, Vec<Ink>)| (e.0, e.1@.map_values(|i: Ink| i@)))
}

pub open spec fn file_pools_wf(f: Seq<(char, Vec<Ink>)>) -> bool {
    forall|t: int, j: int|
        0 <= t < f.len() && 0 <= j < f[t].1@.len() ==> ink_wf(#[trigger] f[t].1@[j]@) && ink_within(
            f[t].1@[j]@,
            TEMPLATE_XY_BOUND as int,
        )
}


/// A whole pool of inks, each rescaled.
fn scale_pool(pool: &Vec<Ink>, hn: i64, ho: i64) -> (r: Vec<Ink>)
    requires
        forall|t: int|
            0 <= t < pool@.len() ==> ink_wf((#[trigger] pool@[t])@) && ink_within(
                pool@[t]@,
                TEMPLATE_XY_BOUND as int,
            ),
        1 <= hn <= 4096,
        1 <= ho <= 4096,
    ensures
        r@.map_values(|i: Ink| i@) == pool@.map_values(|i: Ink| i@).map_values(
            |i: Seq<StrokeView>| scale_ink(i, hn as int, ho as int),
        ),
        forall|t: int| 0 <= t < r@.len() ==> ink_wf(#[trigger] r@[t]@),
{
    let mut out: Vec<Ink> = Vec::new();
    let n = pool.len();
    let mut p: usize = 0;
    while p < n
        invariant
            p <= n,
            n == pool@.len(),
            forall|t: int|
                0 <= t < pool@.len() ==> ink_wf((#[trigger] pool@[t])@) && ink_within(
                    pool@[t]@,
                    TEMPLATE_XY_BOUND as int,
                ),
            1 <= hn <= 4096,
            1 <= ho <= 4096,
            out@.len() == p,
            forall|t: int|
                0 <= t < p ==> #[trigger] out@[t]@ == scale_ink(
                    pool@[t]@,
                    hn as int,
                    ho as int,
                ) && ink_wf(out@[t]@),
        decreases n - p,
    {
        let scaled = scale_ink_exec(&pool[p], hn, ho);
        out.push(scaled);
        p += 1;
    }
    proof {
        assert(out@.map_values(|i: Ink| i@) =~= pool@.map_values(|i: Ink| i@).map_values(
            |i: Seq<StrokeView>| scale_ink(i, hn as int, ho as int),
        ));
    }
    out
}

/// The (rescaled) stored pool for one character: the first stored entry
/// for it, or an empty pool.
fn build_pool(file: &TemplateFile, c: char, hn: i64, ho: i64) -> (pool: Vec<Ink>)
    requires
        file_pools_wf(file.templates@),
        1 <= hn <= 4096,
        1 <= ho <= 4096,
    ensures
        pool@.map_values(|i: Ink| i@) == lookup_pool(file_entries(file.templates@), c).map_values(
            |i: Seq<StrokeView>| scale_ink(i, hn as int, ho as int),
        ),
        forall|t: int| 0 <= t < pool@.len() ==> ink_wf(#[trigger] pool@[t]@),
{
    let ghost entries = file_entries(file.templates@);
    let mut pool: Vec<Ink> = Vec::new();
    let en = file.templates.len();
    let mut e: usize = 0;
    let mut found = false;
    while e < en && !found
        invariant
            e <= en,
            en == entries.len(),
            entries == file_entries(file.templates@),
            !found ==> forall|t: int| 0 <= t < e ==> (#[trigger] entries[t]).0 != c,
            found ==> e < en && entries[e as int].0 == c && (forall|t: int|
                0 <= t < e ==> (#[trigger] entries[t]).0 != c),
        decreases en - e + (if found {
            0int
        } else {
            1int
        }),
    {
        proof {
            assert(entries[e as int].0 == file.templates@[e as int].0);
        }
        if file.templates[e].0 == c {
            found = true;
        } else {
            e += 1;
        }
    }
    if found {
        proof {
            lemma_lookup_at(entries, c, e as int);
        }
        let ghost src_pool = entries[e as int].1;
        let pn = file.templates[e].1.len();
        let mut p: usize = 0;
        while p < pn
            invariant
                p <= pn,
                e < file.templates@.len(),
                pn == file.templates@[e as int].1@.len(),
                entries == file_entries(file.templates@),
                src_pool == entries[e as int].1,
                file_pools_wf(file.templates@),
                1 <= hn <= 4096,
                1 <= ho <= 4096,
                pool@.len() == p,
                forall|t: int|
                    0 <= t < p ==> #[trigger] pool@[t]@ == scale_ink(
                        src_pool[t],
                        hn as int,
                        ho as int,
                    ) && ink_wf(pool@[t]@),
            decreases pn - p,
        {
            proof {
                assert(src_pool[p as int] == file.templates@[e as int].1@[p as int]@);
                assert(ink_wf(file.templates@[e as int].1@[p as int]@));
            }
            let scaled = scale_ink_exec(&file.templates[e].1[p], hn, ho);
            pool.push(scaled);
            p += 1;
        }
        proof {
            assert(pool@.map_values(|i: Ink| i@) =~= lookup_pool(entries, c).map_values(
                |i: Seq<StrokeView>| scale_ink(i, hn as int, ho as int),
            ));
        }
    } else {
        proof {
            lemma_lookup_absent(entries, c);
            assert(pool@.map_values(|i: Ink| i@) =~= lookup_pool(entries, c).map_values(
                |i: Seq<StrokeView>| scale_ink(i, hn as int, ho as int),
            ));
        }
    }
    pool
}

impl TextStuff {
    /// Rebuild the whole recognition state from persisted template data.
    /// Stored inks are rescaled by the ratio of the runtime cell height to
    /// the stored cell height, every character of the working set (the
    /// default printable characters plus the configured extras) gets a pool,
    /// other stored pools are kept after them, the candidate queue is
    /// rebuilt, and both recognizers are re-derived from the result.
    #[verifier::rlimit(100)]
    #[verifier::spinoff_prover]
    pub fn load_from_file(&mut self, file: TemplateFile, metrics: &Metrics, config: &Config)
        requires
            old(self).wf(),
            metrics.wf(),
            1 <= file.template_height <= 4096,
            file_pools_wf(file.templates@),
            file.candidate_templates@.len() <= NUM_CANDIDATES,
            forall|t: int|
                0 <= t < file.candidate_templates@.len() ==> ink_wf(
                    (#[trigger] file.candidate_templates@[t]).1@,
                ) && ink_within(file.candidate_templates@[t].1@, TEMPLATE_XY_BOUND as int)
                    && file.candidate_templates@[t].1@.len() >= 1,
        ensures
            final(self).wf(),
            ({
                let hn = metrics.height as int;
                let ho = file.template_height as int;
                let cs = dedup_chars(
                    PRINTABLE_ASCII@ + extras_spec(
                        config.extra_chars@.map_values(|s: String| s@),
                    ),
                );
                let built = loaded_templates(cs, file_entries(file.templates@), hn, ho);
                let ts = final(self).templates@.map_values(|c: CharTemplates| c@);
                &&& ts.len() == built.len()
                &&& forall|t: int|
                    0 <= t < ts.len() ==> (#[trigger] ts[t]).ch == built[t].ch && ts[t].templates
                        == filter_small(built[t].templates)
                &&& final(self).char_recognizer.tviews() == grid_pairs(
                    ts,
                    hn,
                    metrics.width as int,
                    metrics.baseline as int,
                ).map_values(|p: (Seq<CloudPoint>, char)| p.0)
                &&& final(self).char_recognizer.chars@ == grid_pairs(
                    ts,
                    hn,
                    metrics.width as int,
                    metrics.baseline as int,
                ).map_values(|p: (Seq<CloudPoint>, char)| p.1)
                &&& final(self).big_recognizer.tviews() == shape_pairs(ts).map_values(
                    |p: (Seq<CloudPoint>, char)| p.0,
                )
                &&& final(self).big_recognizer.chars@ == shape_pairs(ts).map_values(
                    |p: (Seq<CloudPoint>, char)| p.1,
                )
                &&& final(self).candidate_templates@.len() == file.candidate_templates@.len()
                &&& forall|t: int|
                    0 <= t < file.candidate_templates@.len() ==> {
                        let cd = #[trigger] final(self).candidate_templates@[t];
                        &&& cd.ch == file.candidate_templates@[t].0
                        &&& cd.ink@ == scale_ink(file.candidate_templates@[t].1@, hn, ho)
                        &&& cd.points@ == grid_cloud_of(
                            scale_ink(file.candidate_templates@[t].1@, hn, ho),
                            hn,
                            metrics.width as int,
                            metrics.baseline as int,
                        )
                    }
            }),
            final(self).clipboard == old(self).clipboard,
    {
        let hn = metrics.height as i64;
        let ho = file.template_height as i64;
        // the working character set, in first-occurrence order
        let mut all_chars: Vec<char> = Vec::new();
        let an = PRINTABLE_ASCII.unicode_len();
        let mut j: usize = 0;
        while j < an
            invariant
                j <= an,
                an == PRINTABLE_ASCII@.len(),
                all_chars@ == PRINTABLE_ASCII@.take(j as int),
            decreases an - j,
        {
            proof {
                assert(PRINTABLE_ASCII@.take(j + 1 as int) =~= PRINTABLE_ASCII@.take(
                    j as int,
                ).push(PRINTABLE_ASCII@[j as int]));
            }
            all_chars.push(PRINTABLE_ASCII.get_char(j));
            j += 1;
        }
        let mut extras = config.extra_chars();
        let ghost allc = PRINTABLE_ASCII@ + extras_spec(
            config.extra_chars@.map_values(|s: String| s@),
        );
        proof {
            assert(PRINTABLE_ASCII@.take(an as int) =~= PRINTABLE_ASCII@);
        }
        all_chars.append(&mut extras);
        proof {
            assert(all_chars@ =~= allc);
        }
        let mut charset: Vec<char> = Vec::new();
        let cn = all_chars.len();
        let mut j2: usize = 0;
        while j2 < cn
            invariant
                j2 <= cn,
                cn == allc.len(),
                all_chars@ == allc,
                charset@ == dedup_chars(allc.take(j2 as int)),
            decreases cn - j2,
        {
            proof {
                assert(allc.take(j2 + 1 as int).drop_last() =~= allc.take(j2 as int));
                assert(allc.take(j2 + 1 as int).last() == allc[j2 as int]);
            }
            let c = char_at(&all_chars, j2);
            if !contains_char(&charset, c) {
                charset.push(c);
            }
            j2 += 1;
        }
        proof {
            assert(allc.take(cn as int) =~= allc);
        }
        let ghost cs = dedup_chars(allc);
        let ghost entries = file_entries(file.templates@);
        // one pool per working character
        let mut new_templates: Vec<CharTemplates> = Vec::new();
        let kn = charset.len();
        let mut k: usize = 0;
        proof {
            assert(new_templates@.map_values(|c2: CharTemplates| c2@) =~= cs.take(0).map_values(
                |c2: char| loaded_pool_view(entries, c2, hn as int, ho as int),
            ));
        }
        while k < kn
            invariant
                k <= kn,
                kn == cs.len(),
                charset@ == cs,
                entries == file_entries(file.templates@),
                file_pools_wf(file.templates@),
                1 <= hn <= 4096,
                1 <= ho <= 4096,
                new_templates@.len() == k,
                new_templates@.map_values(|c2: CharTemplates| c2@) == cs.take(k as int).map_values(
                    |c2: char| loaded_pool_view(entries, c2, hn as int, ho as int),
                ),
                forall|t: int|
                    0 <= t < k ==> char_templates_wf((#[trigger] new_templates@[t])@),
            decreases kn - k,
        {
            let c = char_at(&charset, k);
            let pool = build_pool(&file, c, hn, ho);
            let entry = CharTemplates { ch: c, templates: pool };
            proof {
                assert(entry@.ch == c);
                assert(entry@.templates == lookup_pool(entries, c).map_values(
                    |i: Seq<StrokeView>| scale_ink(i, hn as int, ho as int),
                ));
            }
            new_templates.push(entry);
            proof {
                let f = |c2: char| loaded_pool_view(entries, c2, hn as int, ho as int);
                assert(entry@ =~~= loaded_pool_view(entries, cs[k as int], hn as int, ho as int));
                assert(cs.take(k + 1 as int).drop_last() =~= cs.take(k as int));
                assert(cs.take(k + 1 as int).map_values(f) =~= cs.take(k as int).map_values(
                    f,
                ).push(f(cs[k as int])));
                assert(new_templates@.map_values(|c2: CharTemplates| c2@) =~= cs.take(
                    k + 1 as int,
                ).map_values(f));
            }
            k += 1;
        }
        proof {
            assert(cs.take(cs.len() as int) =~= cs);
            assert(leftover_pools(entries.take(0), cs, hn as int, ho as int)
                =~= Seq::<CharTemplatesView>::empty());
            assert(new_templates@.map_values(|c2: CharTemplates| c2@) =~= cs.map_values(
                |c2: char| loaded_pool_view(entries, c2, hn as int, ho as int),
            ) + leftover_pools(entries.take(0), cs, hn as int, ho as int));
        }
        // stored pools for characters outside the working set
        let en2 = file.templates.len();
        let mut e2: usize = 0;
        while e2 < en2
            invariant
                e2 <= en2,
                en2 == entries.len(),
                charset@ == cs,
                entries == file_entries(file.templates@),
                file_pools_wf(file.templates@),
                1 <= hn <= 4096,
                1 <= ho <= 4096,
                new_templates@.len() == cs.len() + leftover_pools(
                    entries.take(e2 as int),
                    cs,
                    hn as int,
                    ho as int,
                ).len(),
                new_templates@.map_values(|c2: CharTemplates| c2@) == cs.map_values(
                    |c2: char| loaded_pool_view(entries, c2, hn as int, ho as int),
                ) + leftover_pools(entries.take(e2 as int), cs, hn as int, ho as int),
                forall|t: int|
                    0 <= t < new_templates@.len() ==> char_templates_wf(
                        #[trigger] new_templates@[t]@,
                    ),
            decreases en2 - e2,
        {
            proof {
                assert(entries.take(e2 + 1 as int).drop_last() =~= entries.take(e2 as int));
                assert(entries.take(e2 + 1 as int).last() == entries[e2 as int]);
                assert(entries[e2 as int].0 == file.templates@[e2 as int].0);
            }
            let c = pool_char_at(&file.templates, e2);
            if !contains_char(&charset, c) {
                let pool = scale_pool(&file.templates[e2].1, hn, ho);
                proof {
                    assert(file.templates@[e2 as int].1@.map_values(|i: Ink| i@)
                        == entries[e2 as int].1);
                }
                let entry = CharTemplates { ch: c, templates: pool };
                proof {
                    assert(pool@.map_values(|i: Ink| i@) =~= entries[e2 as int].1.map_values(
                        |i: Seq<StrokeView>| scale_ink(i, hn as int, ho as int),
                    ));
                    assert(entry@ =~~= leftover_view(entries[e2 as int], hn as int, ho as int));
                }
                new_templates.push(entry);
                proof {
                    assert(!cs.contains(entries[e2 as int].0));
                    assert(leftover_pools(entries.take(e2 + 1 as int), cs, hn as int, ho as int)
                        == leftover_pools(entries.take(e2 as int), cs, hn as int, ho as int).push(
                        entry@,
                    ));
                    let part_a = cs.map_values(
                        |c2: char| loaded_pool_view(entries, c2, hn as int, ho as int),
                    );
                    let part_l = leftover_pools(entries.take(e2 as int), cs, hn as int, ho as int);
                    assert(new_templates@.map_values(|c2: CharTemplates| c2@) =~= (part_a
                        + part_l).push(entry@));
                    assert((part_a + part_l).push(entry@) =~= part_a + part_l.push(entry@));
                    assert(new_templates@.map_values(|c2: CharTemplates| c2@) =~= part_a
                        + leftover_pools(entries.take(e2 + 1 as int), cs, hn as int, ho as int));
                }
            } else {
                proof {
                    assert(cs.contains(entries[e2 as int].0)) by {
                        assert(charset@.contains(entries[e2 as int].0));
                    }
                    assert(leftover_pools(entries.take(e2 + 1 as int), cs, hn as int, ho as int)
                        == leftover_pools(entries.take(e2 as int), cs, hn as int, ho as int));
                }
            }
            e2 += 1;
        }
        proof {
            assert(entries.take(en2 as int) =~= entries);
        }
        self.templates = new_templates;
        // rebuild the candidate queue
        let mut file2 = file;
        let mut cands: VecDeque<Candidate> = VecDeque::new();
        let ghost cv = file2.candidate_templates@;
        let qn = file2.candidate_templates.len();
        let mut q: usize = 0;
        while q < qn
            invariant
                q <= qn,
                qn == cv.len(),
                file2.candidate_templates@ == cv,
                metrics.wf(),
                hn == metrics.height as i64,
                1 <= hn <= 4096,
                1 <= ho <= 4096,
                forall|t: int|
                    0 <= t < cv.len() ==> ink_wf((#[trigger] cv[t]).1@) && ink_within(
                        cv[t].1@,
                        TEMPLATE_XY_BOUND as int,
                    ) && cv[t].1@.len() >= 1,
                cands@.len() == q,
                forall|t: int|
                    0 <= t < q ==> {
                        let cd = #[trigger] cands@[t];
                        &&& cd.ch == cv[t].0
                        &&& cd.ink@ == scale_ink(cv[t].1@, hn as int, ho as int)
                        &&& cd.points@ == grid_cloud_of(
                            scale_ink(cv[t].1@, hn as int, ho as int),
                            metrics.height as int,
                            metrics.width as int,
                            metrics.baseline as int,
                        )
                        &&& ink_wf(cd.ink@)
                        &&& cloud_wf(cd.points@)
                    },
            decreases qn - q,
        {
            proof {
                assert(ink_wf(cv[q as int].1@));
            }
            let ch = cand_char_at(&file2.candidate_templates, q);
            proof {
                assert(file2.candidate_templates@[q as int] == cv[q as int]);
            }
            let scaled = scale_ink_exec(&file2.candidate_templates[q].1, hn, ho);
            let cloud = PointCloud::from_ink_grid(&scaled, metrics);
            let cd = Candidate { ink: scaled, points: cloud, ch };
            proof {
                assert(cd.ch == cv[q as int].0);
                assert(cd.ink@ == scale_ink(cv[q as int].1@, hn as int, ho as int));
            }
            cands.push_back(cd);
            q += 1;
        }
        self.candidate_templates = cands;
        self.init_recognizer(metrics);
    }
}

} // verus!
