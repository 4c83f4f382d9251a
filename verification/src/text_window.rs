//! The top-level text-editing controller: viewport, selection state machine,
//! undo/redo with a bounded ring, the protected ("frozen") prefix, tentative
//! recognition tracking, and gesture dispatch.

use vstd::prelude::*;
use std::collections::VecDeque;
use crate::text_buffer::{
    Coord, TextBuffer, Replace, buf_wf, buf_valid, coord_le_spec, coord_lt_spec, coord_view,
    add_coord_spec, diff_coord_spec, clamp_spec, end_spec, replace_spec, head_of, tail_of,
    append_spec, padding_spec, pad_of, content_of, copy_spec, lines_of, coord_le, coord_lt,
    add_coord, diff_coord,
    lemma_clamp_valid, lemma_clamp_of_valid, lemma_clamp_cases, lemma_clamp_monotone,
    lemma_split_append, lemma_split_end, lemma_head_head, lemma_head_append,
    lemma_replace_noop,
};
use crate::geom::{Ink, StrokeView, Sample, ink_wf, Metrics};
use crate::ink_type::{InkType, ink_type_wf};
use crate::points::PointCloud;
use crate::hwr::TextStuff;

verus! {

/// The undo ring holds at most this many edits.
pub const NUM_UNDOS: usize = 64;

/// The tentative-recognition queue holds at most this many records.
pub const NUM_RECENT_RECOGNITIONS: usize = 10;

/// An insertion-point marker: a grid coordinate and the ink drawn for it.
pub struct Carat {
    pub coord: Coord,
    pub ink: Ink,
}

#[verifier::ext_equal]
pub ghost struct CaratView {
    pub coord: (int, int),
    pub ink: Seq<StrokeView>,
}

impl View for Carat {
    type V = CaratView;

    open spec fn view(&self) -> CaratView {
        CaratView { coord: (self.coord.0 as int, self.coord.1 as int), ink: self.ink@ }
    }
}

/// The selection state: no selection, a single insertion point, or a range.
/// A carat gesture advances Normal to Single to Range; one more resets to
/// Normal.
pub enum Selection {
    Normal,
    Single { carat: Carat },
    Range { start: Carat, end: Carat },
}

#[verifier::ext_equal]
pub ghost enum SelectionView {
    Normal,
    Single { carat: CaratView },
    Range { start: CaratView, end: CaratView },
}

impl View for Selection {
    type V = SelectionView;

    open spec fn view(&self) -> SelectionView {
        match self {
            Selection::Normal => SelectionView::Normal,
            Selection::Single { carat } => SelectionView::Single { carat: carat@ },
            Selection::Range { start, end } => SelectionView::Range { start: start@, end: end@ },
        }
    }
}

/// A tentative recognition: a glyph written at a coordinate, the ink that
/// produced it, and the older inks it overwrote.
pub struct Recognition {
    pub coord: Coord,
    pub ink: Ink,
    pub recognized_as: char,
    pub overwrites: Vec<Ink>,
}

#[verifier::ext_equal]
pub ghost struct RecognitionView {
    pub coord: (int, int),
    pub ink: Seq<StrokeView>,
    pub recognized_as: char,
    pub overwrites: Seq<Seq<StrokeView>>,
}

impl View for Recognition {
    type V = RecognitionView;

    open spec fn view(&self) -> RecognitionView {
        RecognitionView {
            coord: (self.coord.0 as int, self.coord.1 as int),
            ink: self.ink@,
            recognized_as: self.recognized_as,
            overwrites: self.overwrites@.map_values(|i: Ink| i@),
        }
    }
}

pub open spec fn rec_wf(r: RecognitionView) -> bool {
    &&& ink_wf(r.ink)
    &&& forall|j: int| 0 <= j < r.overwrites.len() ==> ink_wf(#[trigger] r.overwrites[j])
}

/// Add one entry to a bounded queue, evicting and returning the oldest entry
/// when the queue is already at capacity.
pub fn rotate_queue<T>(queue: &mut VecDeque<T>, value: T, capacity: usize) -> (popped: Option<T>)
    requires
        old(queue)@.len() <= capacity,
        capacity >= 1,
    ensures
        old(queue)@.len() == capacity ==> popped == Some(old(queue)@[0]) && final(queue)@ == old(
            queue,
        )@.skip(1).push(value),
        old(queue)@.len() < capacity ==> popped is None && final(queue)@ == old(queue)@.push(value),
        final(queue)@.len() <= capacity,
{
    let popped = if queue.len() == capacity {
        queue.pop_front()
    } else {
        None
    };
    queue.push_back(value);
    popped
}

/// Add one recognition to the bounded queue, evicting the oldest when full;
/// well-formedness of every record is preserved.
fn rotate_recognitions(q: &mut VecDeque<Recognition>, value: Recognition) -> (popped: Option<
    Recognition,
>)
    requires
        old(q)@.len() <= NUM_RECENT_RECOGNITIONS,
        forall|i: int| 0 <= i < old(q)@.len() ==> rec_wf((#[trigger] old(q)@[i])@),
        rec_wf(value@),
    ensures
        final(q)@.len() <= NUM_RECENT_RECOGNITIONS,
        forall|i: int| 0 <= i < final(q)@.len() ==> rec_wf((#[trigger] final(q)@[i])@),
        popped matches Some(r) ==> rec_wf(r@),
        final(q)@.map_values(|r: Recognition| r@) == ring_push(
            old(q)@.map_values(|r: Recognition| r@),
            value@,
            NUM_RECENT_RECOGNITIONS as int,
        ),
        ({
            let pre = old(q)@.map_values(|r: Recognition| r@);
            match popped {
                Option::None => pre.len() < NUM_RECENT_RECOGNITIONS,
                Option::Some(r) => pre.len() == NUM_RECENT_RECOGNITIONS && r@ == pre[0],
            }
        }),
{
    let ghost pre = q@;
    let ghost prev = q@.map_values(|r: Recognition| r@);
    let ghost vg = value;
    let popped = rotate_queue(q, value, NUM_RECENT_RECOGNITIONS);
    proof {
        let post = q@.map_values(|r: Recognition| r@);
        assert forall|i: int| 0 <= i < post.len() implies post[i] == ring_push(
            prev,
            vg@,
            NUM_RECENT_RECOGNITIONS as int,
        )[i] by {
            if pre.len() == NUM_RECENT_RECOGNITIONS {
                if i < post.len() - 1 {
                    assert(q@[i] == pre[i + 1]);
                } else {
                    assert(q@[i] == vg);
                }
            } else {
                if i < post.len() - 1 {
                    assert(q@[i] == pre[i]);
                } else {
                    assert(q@[i] == vg);
                }
            }
        }
        assert(post =~= ring_push(prev, vg@, NUM_RECENT_RECOGNITIONS as int));
        match &popped {
            Option::None => {},
            Option::Some(r) => {
                assert(r@ == prev[0]);
            },
        }
        assert forall|i: int| 0 <= i < q@.len() implies rec_wf((#[trigger] q@[i])@) by {
            if pre.len() == NUM_RECENT_RECOGNITIONS {
                assert(q@ == pre.skip(1).push(vg));
                if i < q@.len() - 1 {
                    assert(q@[i] == pre[i + 1]);
                } else {
                    assert(q@[i] == vg);
                }
            } else {
                assert(q@ == pre.push(vg));
                if i < q@.len() - 1 {
                    assert(q@[i] == pre[i]);
                } else {
                    assert(q@[i] == vg);
                }
            }
        }
    }
    popped
}

/// The top-level editing controller for one text pane.
pub struct TextWindow {
    pub buffer: TextBuffer,
    pub grid_metrics: Metrics,
    pub selection: Selection,
    pub dimensions: Coord,
    pub origin: Coord,
    pub frozen_until: Coord,
    pub undos: VecDeque<Replace>,
    pub redos: Vec<Replace>,
    pub tentative_recognitions: VecDeque<Recognition>,
}

impl TextWindow {
    /// The window's editing state, as plain values.
    pub open spec fn st(&self) -> WinState {
        WinState {
            buffer: self.buffer@,
            recs: self.tentative_recognitions@.map_values(|r: Recognition| r@),
            undos: self.undos@.map_values(|r: Replace| repl_view(r)),
            redos: self.redos@.map_values(|r: Replace| repl_view(r)),
        }
    }

    /// The window's structural invariant: a well-formed buffer whose extents
    /// and coordinates stay within the window's coordinate bound, a valid
    /// frozen boundary, a bounded undo ring, and a bounded recognition queue.
    pub open spec fn wf(&self) -> bool {
        &&& self.buffer.wf()
        &&& self.grid_metrics.wf()
        &&& buf_valid(self.buffer@, coord_view(self.frozen_until))
        &&& 1 <= self.dimensions.0 <= 0xFFFF_FFFF && 1 <= self.dimensions.1 <= 0xFFFF_FFFF
        &&& self.undos@.len() <= NUM_UNDOS
        &&& forall|i: int| 0 <= i < self.undos@.len() ==> (#[trigger] self.undos@[i]).wf()
        &&& forall|i: int| 0 <= i < self.redos@.len() ==> (#[trigger] self.redos@[i]).wf()
        &&& self.tentative_recognitions@.len() <= NUM_RECENT_RECOGNITIONS
        &&& forall|i: int|
            0 <= i < self.tentative_recognitions@.len() ==> rec_wf(
                #[trigger] self.tentative_recognitions@[i]@,
            )
    }

    /// A fresh window over the given buffer.
    pub fn new(buffer: TextBuffer, metrics: Metrics, dimensions: Coord) -> (w: TextWindow)
        requires
            buffer.wf(),
            metrics.wf(),
            1 <= dimensions.0 <= 0xFFFF_FFFF,
            1 <= dimensions.1 <= 0xFFFF_FFFF,
        ensures
            w.wf(),
            w.buffer@ == buffer@,
            w.grid_metrics == metrics,
            w.selection is Normal,
            coord_view(w.dimensions) == coord_view(dimensions),
            coord_view(w.origin) == (0int, 0int),
            coord_view(w.frozen_until) == (0int, 0int),
            w.undos@.len() == 0,
            w.redos@.len() == 0,
            w.tentative_recognitions@.len() == 0,
    {
        TextWindow {
            buffer,
            grid_metrics: metrics,
            selection: Selection::Normal,
            dimensions,
            origin: (0, 0),
            frozen_until: (0, 0),
            undos: VecDeque::new(),
            redos: Vec::new(),
            tentative_recognitions: VecDeque::new(),
        }
    }

    /// Move the viewport by nearly a page per unit of delta, keeping a few
    /// rows of context.
    pub fn page_relative(&mut self, deltas: (i64, i64))
        requires
            old(self).wf(),
            -0x10000 <= deltas.0 <= 0x10000,
            -0x10000 <= deltas.1 <= 0x10000,
        ensures
            final(self).wf(),
            final(self).origin.0 as int == page_round_spec(
                old(self).origin.0 as int,
                deltas.0 as int,
                old(self).dimensions.0 as int,
            ),
            final(self).origin.1 as int == page_round_spec(
                old(self).origin.1 as int,
                deltas.1 as int,
                old(self).dimensions.1 as int,
            ),
            *final(self) == (TextWindow { origin: final(self).origin, ..*old(self) }),
    {
        let row = page_round(self.origin.0, deltas.0, self.dimensions.0);
        let col = page_round(self.origin.1, deltas.1, self.dimensions.1);
        self.origin = (row, col);
    }

    /// Clamp the viewport origin so the given coordinate is visible.
    pub fn scroll_into_view(&mut self, coord: Coord)
        requires
            old(self).wf(),
        ensures
            final(self).wf(),
            final(self).origin.0 as int == clamp_rel_spec(
                old(self).origin.0 as int,
                coord.0 as int,
                old(self).dimensions.0 as int,
            ),
            final(self).origin.1 as int == clamp_rel_spec(
                old(self).origin.1 as int,
                coord.1 as int,
                old(self).dimensions.1 as int,
            ),
            *final(self) == (TextWindow { origin: final(self).origin, ..*old(self) }),
    {
        let row = clamp_relative(self.origin.0, coord.0, self.dimensions.0);
        let col = clamp_relative(self.origin.1, coord.1, self.dimensions.1);
        self.origin = (row, col);
    }

    /// Advance the selection state machine with a new carat: no selection
    /// becomes a single point, a point becomes an ordered range, and a third
    /// carat resets the selection.
    pub fn carat(&mut self, carat: Carat)
        requires
            old(self).wf(),
        ensures
            final(self).wf(),
            old(self).selection is Normal ==> final(self).selection@ == (SelectionView::Single {
                carat: carat@,
            }),
            old(self).selection is Single ==> {
                let original = old(self).selection->Single_carat;
                if coord_lt_spec(coord_view(carat.coord), coord_view(original.coord)) {
                    final(self).selection@ == (SelectionView::Range {
                        start: carat@,
                        end: original@,
                    })
                } else {
                    final(self).selection@ == (SelectionView::Range {
                        start: original@,
                        end: carat@,
                    })
                }
            },
            old(self).selection is Range ==> (final(self).selection is Normal),
            final(self).selection@ == sel_step(old(self).selection@, carat@),
            *final(self) == (TextWindow { selection: final(self).selection, ..*old(self) }),
    {
        let mut prev = Selection::Normal;
        core::mem::swap(&mut self.selection, &mut prev);
        self.selection = match prev {
            Selection::Normal => Selection::Single { carat },
            Selection::Single { carat: original } => {
                if coord_lt(carat.coord, original.coord) {
                    Selection::Range { start: carat, end: original }
                } else {
                    Selection::Range { start: original, end: carat }
                }
            },
            Selection::Range { start: _, end: _ } => Selection::Normal,
        };
    }
}

/// The viewport origin after moving nearly a page per unit of delta,
/// clamped to the representable coordinate range.
pub open spec fn page_round_spec(current: int, delta: int, size: int) -> int {
    let stride = if size - 5 > 1 {
        size - 5
    } else {
        1
    };
    let moved = current + delta * stride;
    if moved < 0 {
        0
    } else if moved > usize::MAX {
        usize::MAX as int
    } else {
        moved
    }
}

fn page_round(current: usize, delta: i64, size: usize) -> (r: usize)
    requires
        1 <= size <= 0xFFFF_FFFF,
        -0x10000 <= delta <= 0x10000,
    ensures
        r as int == page_round_spec(current as int, delta as int, size as int),
{
    let stride: u64 = if size >= 7 {
        (size - 5) as u64
    } else {
        1
    };
    let d_abs: u64 = if delta >= 0 {
        delta as u64
    } else {
        (-delta) as u64
    };
    proof {
        assert(d_abs * stride <= 0x10000 * 0xFFFF_FFFF) by (nonlinear_arith)
            requires
                0 <= d_abs <= 0x10000,
                1 <= stride <= 0xFFFF_FFFF,
        ;
    }
    let amt64: u64 = d_abs * stride;
    let amt: usize = if amt64 > usize::MAX as u64 {
        usize::MAX
    } else {
        amt64 as usize
    };
    proof {
        let st = stride as int;
        let d = delta as int;
        if delta >= 0 {
            assert(d * st == (d_abs as int) * st);
        } else {
            assert(d * st == -((d_abs as int) * st)) by (nonlinear_arith)
                requires
                    d == -(d_abs as int),
            ;
        }
    }
    if delta >= 0 {
        current.saturating_add(amt)
    } else {
        current.saturating_sub(amt)
    }
}

/// How tentative-recognition coordinates move across an edit of
/// `[from, old_until)` whose replacement now ends at `new_until`: records
/// before the edit stay, records inside the replaced span are dropped, and
/// records after it shift by the same delta the edit applied. A record whose
/// shifted coordinate cannot be represented is dropped.
pub open spec fn remap_spec(
    recs: Seq<RecognitionView>,
    from: (int, int),
    old_until: (int, int),
    new_until: (int, int),
) -> Seq<RecognitionView>
    decreases recs.len(),
{
    if recs.len() == 0 {
        Seq::<RecognitionView>::empty()
    } else {
        let rest = remap_spec(recs.drop_last(), from, old_until, new_until);
        let r = recs.last();
        if coord_lt_spec(r.coord, from) {
            rest.push(r)
        } else if coord_lt_spec(r.coord, old_until) {
            rest
        } else {
            let nc = add_coord_spec(new_until, diff_coord_spec(old_until, r.coord));
            if nc.0 <= usize::MAX && nc.1 <= usize::MAX {
                rest.push(RecognitionView { coord: nc, ..r })
            } else {
                rest
            }
        }
    }
}

/// A viewport-relative coordinate as an absolute grid coordinate, saturated
/// just below the largest representable coordinate.
pub open spec fn rel_spec(o: (int, int), c: (int, int)) -> (int, int) {
    (
        (if o.0 + c.0 < usize::MAX {
            o.0 + c.0
        } else {
            usize::MAX - 1
        }),
        (if o.1 + c.1 < usize::MAX {
            o.1 + c.1
        } else {
            usize::MAX - 1
        }),
    )
}

/// One carat gesture's effect on the selection: no selection becomes a
/// single point, a point becomes an ordered range, and a third carat resets
/// the selection.
pub open spec fn sel_step(s: SelectionView, c: CaratView) -> SelectionView {
    match s {
        SelectionView::Normal => SelectionView::Single { carat: c },
        SelectionView::Single { carat: original } => if coord_lt_spec(c.coord, original.coord) {
            SelectionView::Range { start: c, end: original }
        } else {
            SelectionView::Range { start: original, end: c }
        },
        SelectionView::Range { start, end } => SelectionView::Normal,
    }
}

/// One edit-history entry as plain values: the edit's endpoints and its
/// content.
pub open spec fn repl_view(r: Replace) -> ((int, int), (int, int), Seq<Seq<char>>) {
    (coord_view(r.from), coord_view(r.until), r.content@)
}

/// The window's editing state as plain mathematical values: the buffer, the
/// tentative recognitions, and the two edit histories.
#[verifier::ext_equal]
pub ghost struct WinState {
    pub buffer: Seq<Seq<char>>,
    pub recs: Seq<RecognitionView>,
    pub undos: Seq<((int, int), (int, int), Seq<Seq<char>>)>,
    pub redos: Seq<((int, int), (int, int), Seq<Seq<char>>)>,
}

/// A bounded ring: push at the back, evicting the front when full.
pub open spec fn ring_push<T>(u: Seq<T>, e: T, cap: int) -> Seq<T> {
    if u.len() >= cap {
        u.skip(1).push(e)
    } else {
        u.push(e)
    }
}

/// The full effect of `TextWindow::replace` on the editing state: the
/// frozen-aware edit is applied, its inverse goes onto the undo ring
/// (evicting the oldest entry when full), and the redo history is discarded.
pub open spec fn replace_tr(
    st: WinState,
    fu: (int, int),
    from: (int, int),
    until: (int, int),
    content: Seq<Seq<char>>,
) -> WinState {
    let (nb, recs2, f1, u1, removed) = do_replace_spec(st.buffer, fu, st.recs, from, until, content);
    WinState {
        buffer: nb,
        recs: recs2,
        undos: ring_push(st.undos, ((f1, u1, removed)), NUM_UNDOS as int),
        redos: Seq::empty(),
    }
}

/// The full effect of one frozen-aware edit: the new buffer, the remapped
/// recognition records, and the three fields of the inverse Replace. An edit
/// that ends strictly inside the frozen prefix is dropped; one that starts
/// inside it is clipped to begin at the boundary, so an insertion exactly at
/// the boundary appends there.
pub open spec fn do_replace_spec(
    b: Seq<Seq<char>>,
    fu: (int, int),
    recs: Seq<RecognitionView>,
    from: (int, int),
    until: (int, int),
    content: Seq<Seq<char>>,
) -> (Seq<Seq<char>>, Seq<RecognitionView>, (int, int), (int, int), Seq<Seq<char>>) {
    let clipped = if coord_lt_spec(until, fu) {
        (fu, fu, seq![Seq::<char>::empty()])
    } else if coord_lt_spec(from, fu) {
        (fu, until, tail_of(content, clamp_spec(content, diff_coord_spec(from, fu))))
    } else {
        (from, until, content)
    };
    let (nb, f1, u1, removed) = replace_spec(b, clipped.0, clipped.1, clipped.2);
    (nb, remap_spec(recs, clipped.0, clipped.1, u1), f1, u1, removed)
}

/// A span replacement keeps every prefix of the buffer below the point it
/// starts at, and in particular the whole frozen prefix.
proof fn lemma_replace_preserves_prefix(
    b: Seq<Seq<char>>,
    fu: (int, int),
    from: (int, int),
    until: (int, int),
    content: Seq<Seq<char>>,
)
    requires
        buf_wf(b),
        buf_wf(content),
        buf_valid(b, fu),
        coord_le_spec(fu, from),
        coord_le_spec(from, until),
        from.0 >= 0,
        from.1 >= 0,
        until.0 >= 0,
        until.1 >= 0,
    ensures
        ({
            let (nb, f1, u1, removed) = replace_spec(b, from, until, content);
            &&& buf_wf(nb)
            &&& buf_valid(nb, fu)
            &&& head_of(nb, fu) == head_of(b, fu)
            &&& buf_valid(nb, u1)
            &&& coord_le_spec(fu, f1)
            &&& coord_le_spec(f1, u1)
            &&& buf_wf(removed)
            &&& f1.0 >= 0 && f1.1 >= 0
        }),
{
    let cf = clamp_spec(b, from);
    lemma_clamp_cases(b, from);
    lemma_clamp_valid(b, from);
    lemma_clamp_of_valid(b, fu);
    lemma_clamp_monotone(b, fu, from);
    lemma_clamp_monotone(b, from, until);
    lemma_clamp_valid(b, until);
    // whether the clamp rolled the start forward to the next row
    let fwd = !coord_le_spec(cf, from);
    let afrom = if coord_lt_spec(cf, from) {
        cf
    } else {
        from
    };
    assert(fwd ==> afrom == from && cf == ((from.0 + 1, 0int)));
    assert(!fwd ==> afrom == cf);
    let acontent = if coord_lt_spec(cf, from) {
        append_spec(padding_spec(diff_coord_spec(cf, from).0, diff_coord_spec(cf, from).1), content)
    } else {
        content
    };
    assert(buf_wf(acontent)) by {
        if coord_lt_spec(cf, from) {
            assert(padding_spec(
                diff_coord_spec(cf, from).0,
                diff_coord_spec(cf, from).1,
            ).len() >= 1);
        }
    }
    let cu = clamp_spec(b, until);
    lemma_clamp_monotone(b, fu, until);
    let head1 = head_of(b, cu);
    let trailer = tail_of(b, cu);
    assert(fwd ==> from.0 < cu.0);
    // the effective split point inside `head1` is `cf` in both cases
    let cf2 = clamp_spec(head1, afrom);
    assert(cf2 == cf) by {
        if fwd {
            assert(head1[from.0] == b.take(cu.0)[from.0]);
        } else {
            if cf.0 < cu.0 {
                assert(head1[cf.0] == b.take(cu.0)[cf.0]);
            }
            lemma_clamp_of_valid(head1, cf);
        }
    }
    assert(buf_valid(head1, cf2)) by {
        lemma_clamp_valid(head1, afrom);
    }
    let head2 = head_of(head1, cf2);
    let removed = tail_of(head1, cf2);
    let inserted = append_spec(head2, acontent);
    let f1 = afrom;
    let u1 = end_spec(inserted);
    assert((append_spec(inserted, trailer), f1, u1, removed) == replace_spec(
        b,
        from,
        until,
        content,
    ));
    let nb = append_spec(inserted, trailer);
    assert(cf2 == end_spec(head2)) by {
        assert(head2[cf2.0] == head1[cf2.0].take(cf2.1));
    }
    lemma_split_end(head2, acontent);
    lemma_split_end(inserted, trailer);
    // the frozen boundary lies at or below the effective split point
    assert(coord_le_spec(fu, cf2)) by {
        assert(coord_le_spec(clamp_spec(b, fu), clamp_spec(b, from)));
    }
    // the frozen boundary survives every stage of the splice
    lemma_head_head(b, cu, fu);
    lemma_head_head(head1, cf2, fu);
    lemma_head_append(head2, acontent, fu);
    lemma_head_append(inserted, trailer, fu);
    assert(head_of(nb, fu) == head_of(b, fu));
    assert(buf_valid(nb, u1)) by {
        assert(nb[u1.0] == inserted.last() + trailer.first());
    }
    assert(coord_le_spec(fu, f1));
    assert(coord_le_spec(f1, u1)) by {
        assert(inserted.len() >= head2.len());
        assert(coord_le_spec(cf2, u1)) by {
            if u1.0 == cf2.0 {
                assert(inserted.last() == head2.last() + acontent.first());
            }
        }
        if fwd {
        }
    }
}

impl TextWindow {
    /// Apply an edit, clipped so it never touches the frozen prefix, remap
    /// the tentative recognitions across it, and return the inverse edit.
    /// An edit that ends strictly inside the frozen prefix is dropped and
    /// the buffer is left unchanged; an insertion exactly at the boundary
    /// appends there, as the subprocess stream requires.
    pub fn do_replace(&mut self, replace: Replace) -> (inv: Replace)
        requires
            old(self).wf(),
            replace.wf(),
        ensures
            final(self).wf(),
            ({
                let (nb, recs2, f1, u1, removed) = do_replace_spec(
                    old(self).buffer@,
                    coord_view(old(self).frozen_until),
                    old(self).tentative_recognitions@.map_values(|r: Recognition| r@),
                    coord_view(replace.from),
                    coord_view(replace.until),
                    replace.content@,
                );
                &&& final(self).buffer@ == nb
                &&& final(self).tentative_recognitions@.map_values(|r: Recognition| r@) == recs2
                &&& coord_view(inv.from) == f1
                &&& coord_view(inv.until) == u1
                &&& inv.content@ == removed
            }),
            inv.wf(),
            final(self).frozen_until == old(self).frozen_until,
            head_of(final(self).buffer@, coord_view(old(self).frozen_until)) == head_of(
                old(self).buffer@,
                coord_view(old(self).frozen_until),
            ),
            coord_lt_spec(coord_view(replace.until), coord_view(old(self).frozen_until))
                ==> final(self).buffer@ == old(self).buffer@,
            final(self).selection == old(self).selection,
            final(self).origin == old(self).origin,
            final(self).dimensions == old(self).dimensions,
            final(self).grid_metrics == old(self).grid_metrics,
            final(self).undos == old(self).undos,
            final(self).redos == old(self).redos,
    {
        let ghost fu = coord_view(self.frozen_until);
        let ghost rfrom = coord_view(replace.from);
        let ghost runtil = coord_view(replace.until);
        let ghost rcontent = replace.content@;
        let Replace { from, until, content } = replace;
        let (from, until, content) = if coord_lt(until, self.frozen_until) {
            (self.frozen_until, self.frozen_until, TextBuffer::empty())
        } else if coord_lt(from, self.frozen_until) {
            let mut c = content;
            let after = c.split_off(diff_coord(from, self.frozen_until));
            (self.frozen_until, until, after)
        } else {
            (from, until, content)
        };
        let ghost cfrom = coord_view(from);
        let ghost cuntil = coord_view(until);
        let ghost ccontent = content@;
        proof {
            let clipped = if coord_lt_spec(runtil, fu) {
                (fu, fu, seq![Seq::<char>::empty()])
            } else if coord_lt_spec(rfrom, fu) {
                (fu, runtil, tail_of(rcontent, clamp_spec(rcontent, diff_coord_spec(rfrom, fu))))
            } else {
                (rfrom, runtil, rcontent)
            };
            assert(cfrom == clipped.0 && cuntil == clipped.1 && ccontent == clipped.2);
        }
        proof {
            assert(coord_le_spec(coord_view(from), coord_view(until)));
            lemma_replace_preserves_prefix(
                self.buffer@,
                fu,
                coord_view(from),
                coord_view(until),
                content@,
            );
            if coord_lt_spec(runtil, fu) {
                crate::text_buffer::lemma_replace_noop(self.buffer@, fu);
            }
        }
        let edit = Replace { from, until, content };
        let undo = self.buffer.replace(edit);
        let new_until = undo.until;
        // remap the tentative recognitions across the edit
        let ghost recs0 = self.tentative_recognitions@.map_values(|r: Recognition| r@);
        let ghost mid = *self;
        let n = self.tentative_recognitions.len();
        let mut kept: VecDeque<Recognition> = VecDeque::new();
        let mut j: usize = 0;
        while j < n
            invariant
                j <= n,
                n == recs0.len(),
                self.buffer == mid.buffer,
                self.frozen_until == mid.frozen_until,
                self.undos == mid.undos,
                self.redos == mid.redos,
                self.selection == mid.selection,
                self.origin == mid.origin,
                self.dimensions == mid.dimensions,
                self.grid_metrics == mid.grid_metrics,
                self.tentative_recognitions@.len() == n - j,
                forall|t: int|
                    0 <= t < n - j ==> #[trigger] self.tentative_recognitions@[t]@ == recs0[j + t],
                forall|t: int|
                    0 <= t < n - j ==> rec_wf(#[trigger] self.tentative_recognitions@[t]@),
                kept@.map_values(|r: Recognition| r@) == remap_spec(
                    recs0.take(j as int),
                    coord_view(from),
                    coord_view(until),
                    coord_view(new_until),
                ),
                forall|t: int| 0 <= t < kept@.len() ==> rec_wf(#[trigger] kept@[t]@),
                kept@.len() <= j,
            decreases n - j,
        {
            proof {
                assert(recs0.take(j + 1 as int).drop_last() =~= recs0.take(j as int));
                assert(recs0.take(j + 1 as int).last() == recs0[j as int]);
            }
            let mut r = match self.tentative_recognitions.pop_front() {
                Some(r) => r,
                None => {
                    proof {
                        assert(false);
                    }
                    continue ;
                },
            };
            let ghost rold = r@;
            proof {
                assert(rold == recs0[j as int]);
            }
            let ghost pre = kept@.map_values(|rr: Recognition| rr@);
            if coord_lt(r.coord, from) {
                kept.push_back(r);
                proof {
                    assert(kept@.map_values(|rr: Recognition| rr@) =~= pre.push(recs0[j as int]));
                }
            } else if coord_lt(r.coord, until) {
                // the record's cell no longer exists as written
            } else {
                let d = diff_coord(until, r.coord);
                let fits = if d.0 == 0 {
                    new_until.1 <= usize::MAX - d.1
                } else {
                    new_until.0 <= usize::MAX - d.0
                };
                if fits {
                    let nc = add_coord(new_until, d);
                    r.coord = nc;
                    proof {
                        assert(r@.coord == coord_view(nc));
                        assert(r@.ink == rold.ink);
                        assert(r@.recognized_as == rold.recognized_as);
                        assert(r@.overwrites == rold.overwrites);
                        assert(r@ =~~= (RecognitionView {
                            coord: coord_view(nc),
                            ..recs0[j as int]
                        }));
                        assert(coord_view(nc) == add_coord_spec(
                            coord_view(new_until),
                            diff_coord_spec(coord_view(until), recs0[j as int].coord),
                        ));
                    }
                    kept.push_back(r);
                    proof {
                        assert(kept@.map_values(|rr: Recognition| rr@) =~= pre.push(r@));
                    }
                }
            }
            j += 1;
        }
        self.tentative_recognitions = kept;
        proof {
            assert(recs0.take(n as int) =~= recs0);
            let sp = do_replace_spec(old(self).buffer@, fu, recs0, rfrom, runtil, rcontent);
            assert(self.buffer@ == sp.0);
            assert(self.tentative_recognitions@.map_values(|r: Recognition| r@) == sp.1);
            assert(coord_view(undo.from) == sp.2);
            assert(coord_view(undo.until) == sp.3);
            assert(undo.content@ == sp.4);
            assert(self.wf());
        }
        undo
    }
}

impl TextWindow {
    /// Apply an edit and record its inverse on the undo ring, evicting the
    /// oldest entry when the ring is already full. Any redo history becomes
    /// invalid and is discarded.
    pub fn replace(&mut self, replace: Replace)
        requires
            old(self).wf(),
            replace.wf(),
        ensures
            final(self).wf(),
            ({
                let (nb, recs2, f1, u1, removed) = do_replace_spec(
                    old(self).buffer@,
                    coord_view(old(self).frozen_until),
                    old(self).tentative_recognitions@.map_values(|r: Recognition| r@),
                    coord_view(replace.from),
                    coord_view(replace.until),
                    replace.content@,
                );
                &&& final(self).buffer@ == nb
                &&& final(self).tentative_recognitions@.map_values(|r: Recognition| r@) == recs2
                &&& final(self).undos@.len() >= 1
                &&& coord_view(final(self).undos@.last().from) == f1
                &&& coord_view(final(self).undos@.last().until) == u1
                &&& final(self).undos@.last().content@ == removed
                &&& final(self).undos@.drop_last() == (if old(self).undos@.len() == NUM_UNDOS {
                    old(self).undos@.skip(1)
                } else {
                    old(self).undos@
                })
            }),
            final(self).st() == replace_tr(
                old(self).st(),
                coord_view(old(self).frozen_until),
                coord_view(replace.from),
                coord_view(replace.until),
                replace.content@,
            ),
            final(self).redos@.len() == 0,
            final(self).frozen_until == old(self).frozen_until,
            head_of(final(self).buffer@, coord_view(old(self).frozen_until)) == head_of(
                old(self).buffer@,
                coord_view(old(self).frozen_until),
            ),
            final(self).selection == old(self).selection,
            final(self).origin == old(self).origin,
            final(self).dimensions == old(self).dimensions,
            final(self).grid_metrics == old(self).grid_metrics,
    {
        let ghost pre = self.undos@.map_values(|r: Replace| repl_view(r));
        let undo = self.do_replace(replace);
        let ghost uv = repl_view(undo);
        rotate_queue(&mut self.undos, undo, NUM_UNDOS);
        self.redos.clear();
        proof {
            if old(self).undos@.len() == NUM_UNDOS {
                assert(self.undos@.drop_last() =~= old(self).undos@.skip(1));
            } else {
                assert(self.undos@.drop_last() =~= old(self).undos@);
            }
            let post = self.undos@.map_values(|r: Replace| repl_view(r));
            assert forall|t: int| 0 <= t < post.len() implies post[t] == ring_push(
                pre,
                uv,
                NUM_UNDOS as int,
            )[t] by {
                if t < post.len() - 1 {
                    if old(self).undos@.len() == NUM_UNDOS {
                        assert(self.undos@[t] == old(self).undos@[t + 1]);
                        assert(pre.skip(1)[t] == pre[t + 1]);
                    } else {
                        assert(self.undos@[t] == old(self).undos@[t]);
                    }
                } else {
                    assert(self.undos@[t] == undo);
                }
            }
            assert(post =~= ring_push(pre, uv, NUM_UNDOS as int));
            assert(self.redos@.map_values(|r: Replace| repl_view(r))
                =~= Seq::<((int, int), (int, int), Seq<Seq<char>>)>::empty());
            assert(final(self).st() =~~= replace_tr(
                old(self).st(),
                coord_view(old(self).frozen_until),
                coord_view(replace.from),
                coord_view(replace.until),
                replace.content@,
            ));
        }
    }

    /// Take back the most recent edit, scrolling its location into view; the
    /// edit's inverse moves onto the redo stack.
    pub fn undo(&mut self)
        requires
            old(self).wf(),
        ensures
            final(self).wf(),
            old(self).undos@.len() == 0 ==> final(self).buffer@ == old(self).buffer@
                && final(self).undos@ == old(self).undos@
                && final(self).redos@ == old(self).redos@
                && final(self).tentative_recognitions@ == old(self).tentative_recognitions@
                && final(self).origin == old(self).origin,
            old(self).undos@.len() >= 1 ==> ({
                let e = old(self).undos@.last();
                let (nb, recs2, f1, u1, removed) = do_replace_spec(
                    old(self).buffer@,
                    coord_view(old(self).frozen_until),
                    old(self).tentative_recognitions@.map_values(|r: Recognition| r@),
                    coord_view(e.from),
                    coord_view(e.until),
                    e.content@,
                );
                &&& final(self).buffer@ == nb
                &&& final(self).tentative_recognitions@.map_values(|r: Recognition| r@) == recs2
                &&& final(self).undos@ == old(self).undos@.drop_last()
                &&& final(self).redos@.len() == old(self).redos@.len() + 1
                &&& coord_view(final(self).redos@.last().from) == f1
                &&& coord_view(final(self).redos@.last().until) == u1
                &&& final(self).redos@.last().content@ == removed
                &&& final(self).redos@.drop_last() == old(self).redos@
                &&& final(self).origin.0 as int == clamp_rel_spec(
                    old(self).origin.0 as int,
                    e.from.0 as int,
                    old(self).dimensions.0 as int,
                )
                &&& final(self).origin.1 as int == clamp_rel_spec(
                    old(self).origin.1 as int,
                    e.from.1 as int,
                    old(self).dimensions.1 as int,
                )
            }),
            final(self).frozen_until == old(self).frozen_until,
            final(self).selection == old(self).selection,
            final(self).dimensions == old(self).dimensions,
            final(self).grid_metrics == old(self).grid_metrics,
    {
        let popped = self.undos.pop_back();
        match popped {
            Some(undo) => {
                self.scroll_into_view(undo.from);
                let redo = self.do_replace(undo);
                self.redos.push(redo);
                proof {
                    assert(self.redos@.drop_last() =~= old(self).redos@);
                }
            },
            None => {},
        }
    }

    /// Reapply the most recently undone edit, scrolling its location into
    /// view; its inverse goes back onto the undo ring.
    pub fn redo(&mut self)
        requires
            old(self).wf(),
        ensures
            final(self).wf(),
            old(self).redos@.len() == 0 ==> final(self).buffer@ == old(self).buffer@
                && final(self).undos@ == old(self).undos@
                && final(self).redos@ == old(self).redos@
                && final(self).tentative_recognitions@ == old(self).tentative_recognitions@
                && final(self).origin == old(self).origin,
            old(self).redos@.len() >= 1 ==> ({
                let e = old(self).redos@.last();
                let (nb, recs2, f1, u1, removed) = do_replace_spec(
                    old(self).buffer@,
                    coord_view(old(self).frozen_until),
                    old(self).tentative_recognitions@.map_values(|r: Recognition| r@),
                    coord_view(e.from),
                    coord_view(e.until),
                    e.content@,
                );
                &&& final(self).buffer@ == nb
                &&& final(self).tentative_recognitions@.map_values(|r: Recognition| r@) == recs2
                &&& final(self).redos@ == old(self).redos@.drop_last()
                &&& final(self).undos@.len() >= 1
                &&& coord_view(final(self).undos@.last().from) == f1
                &&& coord_view(final(self).undos@.last().until) == u1
                &&& final(self).undos@.last().content@ == removed
                &&& final(self).undos@.drop_last() == (if old(self).undos@.len() == NUM_UNDOS {
                    old(self).undos@.skip(1)
                } else {
                    old(self).undos@
                })
                &&& final(self).origin.0 as int == clamp_rel_spec(
                    old(self).origin.0 as int,
                    e.from.0 as int,
                    old(self).dimensions.0 as int,
                )
                &&& final(self).origin.1 as int == clamp_rel_spec(
                    old(self).origin.1 as int,
                    e.from.1 as int,
                    old(self).dimensions.1 as int,
                )
            }),
            final(self).frozen_until == old(self).frozen_until,
            final(self).selection == old(self).selection,
            final(self).dimensions == old(self).dimensions,
            final(self).grid_metrics == old(self).grid_metrics,
    {
        let popped = self.redos.pop();
        match popped {
            Some(redo) => {
                self.scroll_into_view(redo.from);
                let undo = self.do_replace(redo);
                rotate_queue(&mut self.undos, undo, NUM_UNDOS);
                proof {
                    if old(self).undos@.len() == NUM_UNDOS {
                        assert(self.undos@.drop_last() =~= old(self).undos@.skip(1));
                    } else {
                        assert(self.undos@.drop_last() =~= old(self).undos@);
                    }
                }
            },
            None => {},
        }
    }
}

/// The origin coordinate that keeps `reference` within a window of
/// `dimension` cells ending at the origin's row or column.
pub open spec fn clamp_rel_spec(value: int, reference: int, dimension: int) -> int {
    let lo = if reference >= dimension - 1 {
        reference - (dimension - 1)
    } else {
        0
    };
    if value < lo {
        lo
    } else if value > reference {
        reference
    } else {
        value
    }
}

fn clamp_relative(value: usize, reference: usize, dimension: usize) -> (r: usize)
    requires
        1 <= dimension,
    ensures
        r as int == clamp_rel_spec(value as int, reference as int, dimension as int),
{
    let lo = if reference >= dimension - 1 {
        reference - (dimension - 1)
    } else {
        0
    };
    if value < lo {
        lo
    } else if value > reference {
        reference
    } else {
        value
    }
}


/// The number of interpolation steps for one segment at the given spacing.
pub open spec fn seg_steps(a: Sample, bp: Sample, spacing: int) -> int
    recommends
        spacing >= 1,
{
    let dx = bp.x - a.x;
    let dy = bp.y - a.y;
    let adx = if dx < 0 {
        -dx
    } else {
        dx
    };
    let ady = if dy < 0 {
        -dy
    } else {
        dy
    };
    let span = if adx > ady {
        adx
    } else {
        ady
    };
    crate::geom::floor_div_spec(span, spacing) + 1
}

/// The grid cell under the `t`-th interpolated sample of one segment.
pub open spec fn seg_cell(
    a: Sample,
    bp: Sample,
    t: int,
    steps: int,
    h: int,
    w: int,
    origin: (int, int),
) -> (int, int)
    recommends
        steps >= 1,
        h >= 1,
        w >= 1,
{
    let px = a.x + crate::geom::floor_div_spec((bp.x - a.x) * t, steps);
    let py = a.y + crate::geom::floor_div_spec((bp.y - a.y) * t, steps);
    let cr = if py <= 0 {
        0int
    } else if crate::geom::floor_div_spec(py, h) > 0xFFFF_FFFF {
        0xFFFF_FFFFint
    } else {
        crate::geom::floor_div_spec(py, h)
    };
    let cc = if px <= 0 {
        0int
    } else if crate::geom::floor_div_spec(px, w) > 0xFFFF_FFFF {
        0xFFFF_FFFFint
    } else {
        crate::geom::floor_div_spec(px, w)
    };
    rel_spec(origin, (cr, cc))
}

/// The cells under all interpolated samples of one segment.
pub open spec fn seg_cells(
    a: Sample,
    bp: Sample,
    spacing: int,
    h: int,
    w: int,
    origin: (int, int),
) -> Seq<(int, int)> {
    Seq::new(
        (seg_steps(a, bp, spacing) + 1) as nat,
        |t: int| seg_cell(a, bp, t, seg_steps(a, bp, spacing), h, w, origin),
    )
}

/// The cells under the first `upto` samples of one stroke, each sample
/// walked toward its successor (the last sample pairs with itself).
pub open spec fn stroke_cells(
    pts: Seq<Sample>,
    upto: int,
    spacing: int,
    h: int,
    w: int,
    origin: (int, int),
) -> Seq<(int, int)>
    decreases upto,
{
    if upto <= 0 {
        Seq::<(int, int)>::empty()
    } else {
        let bp = if upto < pts.len() {
            pts[upto]
        } else {
            pts[upto - 1]
        };
        stroke_cells(pts, upto - 1, spacing, h, w, origin) + seg_cells(
            pts[upto - 1],
            bp,
            spacing,
            h,
            w,
            origin,
        )
    }
}

/// The cells under the first `upto` strokes of an ink.
pub open spec fn ink_cells(
    i: Seq<StrokeView>,
    upto: int,
    spacing: int,
    h: int,
    w: int,
    origin: (int, int),
) -> Seq<(int, int)>
    decreases upto,
{
    if upto <= 0 {
        Seq::<(int, int)>::empty()
    } else {
        ink_cells(i, upto - 1, spacing, h, w, origin) + stroke_cells(
            i[upto - 1].points,
            i[upto - 1].points.len() as int,
            spacing,
            h,
            w,
            origin,
        )
    }
}

/// One cell inserted into a sorted list of distinct cells.
pub open spec fn sort_insert(acc: Seq<(int, int)>, c: (int, int)) -> Seq<(int, int)>
    decreases acc.len(),
{
    if acc.len() == 0 {
        seq![c]
    } else if coord_lt_spec(acc[0], c) {
        seq![acc[0]] + sort_insert(acc.skip(1), c)
    } else if acc[0] == c {
        acc
    } else {
        seq![c] + acc
    }
}

/// The first `upto` cells, sorted with duplicates dropped.
pub open spec fn sort_cells(cells: Seq<(int, int)>, upto: int) -> Seq<(int, int)>
    decreases upto,
{
    if upto <= 0 {
        Seq::<(int, int)>::empty()
    } else {
        sort_insert(sort_cells(cells, upto - 1), cells[upto - 1])
    }
}

/// Extend a run of contiguous same-row cells as far as the sorted list
/// continues it.
pub open spec fn run_ext(sorted: Seq<(int, int)>, j2: int, endc: (int, int)) -> (int, (int, int))
    decreases sorted.len() - j2,
{
    if 0 <= j2 < sorted.len() && sorted[j2] == endc && endc.1 < usize::MAX - 1 {
        run_ext(sorted, j2 + 1, (endc.0, endc.1 + 1))
    } else {
        (j2, endc)
    }
}

proof fn lemma_run_ext_ge(sorted: Seq<(int, int)>, j2: int, endc: (int, int))
    ensures
        run_ext(sorted, j2, endc).0 >= j2,
    decreases sorted.len() - j2,
{
    if 0 <= j2 < sorted.len() && sorted[j2] == endc && endc.1 < usize::MAX - 1 {
        lemma_run_ext_ge(sorted, j2 + 1, (endc.0, endc.1 + 1));
    }
}

/// The runs of the sorted cell list, applied in order: each maximal
/// contiguous same-row run is replaced by blanks of its own extent.
pub open spec fn erase_fold(
    st: WinState,
    fu: (int, int),
    sorted: Seq<(int, int)>,
    j: int,
) -> WinState
    decreases sorted.len() - j,
{
    if j < 0 || j >= sorted.len() {
        st
    } else {
        let start = sorted[j];
        let r = run_ext(sorted, j + 1, (start.0, start.1 + 1));
        let cs = clamp_spec(st.buffer, start);
        let ce = clamp_spec(st.buffer, r.1);
        let st2 = replace_tr(st, fu, cs, ce, pad_of(diff_coord_spec(cs, ce)));
        let j2 = if r.0 <= j {
            j + 1
        } else if r.0 > sorted.len() {
            sorted.len() as int
        } else {
            r.0
        };
        erase_fold(st2, fu, sorted, j2)
    }
}

impl TextWindow {
    /// A viewport-relative coordinate as an absolute grid coordinate.
    fn relative(&self, coord: Coord) -> (r: Coord)
        ensures
            coord_view(r) == rel_spec(coord_view(self.origin), coord_view(coord)),
            r.1 < usize::MAX,
    {
        let row = if coord.0 < usize::MAX - 1 && self.origin.0 <= usize::MAX - 1 - coord.0 {
            self.origin.0 + coord.0
        } else {
            usize::MAX - 1
        };
        let col = if coord.1 < usize::MAX - 1 && self.origin.1 <= usize::MAX - 1 - coord.1 {
            self.origin.1 + coord.1
        } else {
            usize::MAX - 1
        };
        (row, col)
    }

    /// Blank out the grid cells an erasing stroke passes over: the stroke is
    /// resampled at half-cell spacing, each sample maps to a cell, and each
    /// maximal run of touched cells within one row is replaced by blanks of
    /// the same length. The frozen prefix is never touched.
    pub fn erase(&mut self, ink: &Ink)
        requires
            old(self).wf(),
            ink.wf(),
        ensures
            final(self).wf(),
            final(self).frozen_until == old(self).frozen_until,
            head_of(final(self).buffer@, coord_view(old(self).frozen_until)) == head_of(
                old(self).buffer@,
                coord_view(old(self).frozen_until),
            ),
            final(self).selection == old(self).selection,
            final(self).dimensions == old(self).dimensions,
            final(self).grid_metrics == old(self).grid_metrics,
            final(self).origin == old(self).origin,
            ({
                let h = old(self).grid_metrics.height as int;
                let w = old(self).grid_metrics.width as int;
                let spacing = if w / 2 >= 1 {
                    w / 2
                } else {
                    1int
                };
                let cells = ink_cells(
                    ink@,
                    ink@.len() as int,
                    spacing,
                    h,
                    w,
                    coord_view(old(self).origin),
                );
                final(self).st() == erase_fold(
                    old(self).st(),
                    coord_view(old(self).frozen_until),
                    sort_cells(cells, cells.len() as int),
                    0,
                )
            }),
    {
        let ghost fuv = coord_view(old(self).frozen_until);
        let ghost st0 = old(self).st();
        let ghost originv = coord_view(old(self).origin);
        let w = self.grid_metrics.width as i64;
        let h = self.grid_metrics.height as i64;
        let spacing: i64 = if w / 2 >= 1 {
            w / 2
        } else {
            1
        };
        // collect the touched cells, walking each segment at fixed spacing
        let mut cells: Vec<Coord> = Vec::new();
        let ghost cspec = |upto: int|
            ink_cells(ink@, upto, spacing as int, h as int, w as int, originv);
        let sn = ink.strokes.len();
        let mut s: usize = 0;
        proof {
            assert(cells@.map_values(|c2: Coord| coord_view(c2)) =~= cspec(0));
        }
        while s < sn
            invariant
                s <= sn,
                sn == ink@.len(),
                ink.wf(),
                self.wf(),
                *self == *old(self),
                originv == coord_view(self.origin),
                w == self.grid_metrics.width as i64,
                h == self.grid_metrics.height as i64,
                1 <= spacing <= 2048,
                cspec == (|upto: int|
                    ink_cells(ink@, upto, spacing as int, h as int, w as int, originv)),
                cells@.map_values(|c2: Coord| coord_view(c2)) == cspec(s as int),
                forall|t2: int| 0 <= t2 < cells@.len() ==> (#[trigger] cells@[t2]).1 < usize::MAX,
            decreases sn - s,
        {
            proof {
                assert(ink@[s as int] == ink.strokes@[s as int]@);
                assert(crate::geom::stroke_wf(ink@[s as int]));
            }
            let ghost pts = ink@[s as int].points;
            let pn = ink.strokes[s].points.len();
            let mut p: usize = 0;
            proof {
                assert(stroke_cells(pts, 0, spacing as int, h as int, w as int, originv)
                    =~= Seq::<(int, int)>::empty());
                assert(cells@.map_values(|c2: Coord| coord_view(c2)) =~= cspec(s as int)
                    + stroke_cells(pts, 0, spacing as int, h as int, w as int, originv));
            }
            while p < pn
                invariant
                    p <= pn,
                    s < ink@.len(),
                    pn == pts.len(),
                    pts == ink@[s as int].points,
                    ink.wf(),
                    self.wf(),
                    *self == *old(self),
                    originv == coord_view(self.origin),
                    w == self.grid_metrics.width as i64,
                    h == self.grid_metrics.height as i64,
                    1 <= spacing <= 2048,
                    cspec == (|upto: int|
                        ink_cells(ink@, upto, spacing as int, h as int, w as int, originv)),
                    cells@.map_values(|c2: Coord| coord_view(c2)) == cspec(s as int)
                        + stroke_cells(pts, p as int, spacing as int, h as int, w as int, originv),
                    forall|t2: int|
                        0 <= t2 < cells@.len() ==> (#[trigger] cells@[t2]).1 < usize::MAX,
                decreases pn - p,
            {
                proof {
                    assert(crate::geom::stroke_wf(ink@[s as int]));
                    assert(crate::geom::sample_within(
                        pts[p as int],
                        crate::geom::INK_XY_BOUND as int,
                    ));
                    if p + 1 < pn {
                        assert(crate::geom::sample_within(
                            pts[p + 1 as int],
                            crate::geom::INK_XY_BOUND as int,
                        ));
                    }
                }
                let a = ink.strokes[s].points[p];
                let b = if p + 1 < pn {
                    ink.strokes[s].points[p + 1]
                } else {
                    a
                };
                let ghost bspec = if p + 1 < pn as int {
                    pts[p + 1 as int]
                } else {
                    pts[p as int]
                };
                proof {
                    assert(a == pts[p as int] && b == bspec);
                }
                let dx = b.x as i64 - a.x as i64;
                let dy = b.y as i64 - a.y as i64;
                let adx = if dx < 0 {
                    -dx
                } else {
                    dx
                };
                let ady = if dy < 0 {
                    -dy
                } else {
                    dy
                };
                let span = if adx > ady {
                    adx
                } else {
                    ady
                };
                let steps = span / spacing + 1;
                proof {
                    crate::ink_type::lemma_floor_div_bounds(span as int, spacing as int);
                    assert(span / spacing <= span) by (nonlinear_arith)
                        requires
                            spacing >= 1,
                            (span as int) / (spacing as int) * (spacing as int) <= span as int,
                            (span as int) / (spacing as int) >= 0,
                            span >= 0,
                    ;
                    assert(steps as int == seg_steps(a, b, spacing as int));
                }
                let ghost base = cells@.map_values(|c2: Coord| coord_view(c2));
                let mut t: i64 = 0;
                while t <= steps
                    invariant
                        0 <= t <= steps + 1,
                        1 <= steps <= 0x4000_0001,
                        steps as int == seg_steps(a, b, spacing as int),
                        -0x4000_0000 <= a.x <= 0x4000_0000,
                        -0x4000_0000 <= a.y <= 0x4000_0000,
                        -0x4000_0000 <= dx <= 0x4000_0000,
                        -0x4000_0000 <= dy <= 0x4000_0000,
                        dx == b.x - a.x,
                        dy == b.y - a.y,
                        1 <= h <= 4096,
                        1 <= w <= 4096,
                        1 <= spacing <= 2048,
                        self.wf(),
                        *self == *old(self),
                        originv == coord_view(self.origin),
                        w == self.grid_metrics.width as i64,
                        h == self.grid_metrics.height as i64,
                        base.len() + t == cells@.len(),
                        cells@.map_values(|c2: Coord| coord_view(c2)) == base + Seq::new(
                            t as nat,
                            |t2: int| seg_cell(a, b, t2, steps as int, h as int, w as int, originv),
                        ),
                        forall|t2: int|
                            0 <= t2 < cells@.len() ==> (#[trigger] cells@[t2]).1 < usize::MAX,
                    decreases steps + 1 - t,
                {
                    let px = a.x as i64 + mul_div(dx, t, steps);
                    let py = a.y as i64 + mul_div(dy, t, steps);
                    let cr: i64 = if py <= 0 {
                        0
                    } else if py / h > 0xFFFF_FFFF {
                        0xFFFF_FFFF
                    } else {
                        py / h
                    };
                    let cc: i64 = if px <= 0 {
                        0
                    } else if px / w > 0xFFFF_FFFF {
                        0xFFFF_FFFF
                    } else {
                        px / w
                    };
                    let cell = self.relative((cr as usize, cc as usize));
                    proof {
                        assert(coord_view(cell) == seg_cell(
                            a,
                            b,
                            t as int,
                            steps as int,
                            h as int,
                            w as int,
                            originv,
                        ));
                    }
                    let ghost prevmap = cells@.map_values(|c2: Coord| coord_view(c2));
                    cells.push(cell);
                    proof {
                        assert(cells@.map_values(|c2: Coord| coord_view(c2)) =~= prevmap.push(
                            coord_view(cell),
                        ));
                        assert(prevmap.push(coord_view(cell)) =~= base + Seq::new(
                            (t + 1) as nat,
                            |t2: int| seg_cell(a, b, t2, steps as int, h as int, w as int, originv),
                        ));
                        assert(cells@.map_values(|c2: Coord| coord_view(c2)) == base + Seq::new(
                            (t + 1) as nat,
                            |t2: int| seg_cell(a, b, t2, steps as int, h as int, w as int, originv),
                        ));
                    }
                    t += 1;
                }
                proof {
                    assert(Seq::new(
                        (steps + 1) as nat,
                        |t2: int| seg_cell(a, b, t2, steps as int, h as int, w as int, originv),
                    ) =~= seg_cells(a, bspec, spacing as int, h as int, w as int, originv));
                    assert(stroke_cells(pts, p + 1 as int, spacing as int, h as int, w as int, originv)
                        == stroke_cells(pts, p as int, spacing as int, h as int, w as int, originv)
                        + seg_cells(pts[p as int], bspec, spacing as int, h as int, w as int, originv));
                    assert(cells@.map_values(|c2: Coord| coord_view(c2)) =~= cspec(s as int)
                        + stroke_cells(
                        pts,
                        p + 1 as int,
                        spacing as int,
                        h as int,
                        w as int,
                        originv,
                    ));
                }
                p += 1;
            }
            proof {
                assert(cspec(s + 1 as int) == cspec(s as int) + stroke_cells(
                    pts,
                    pts.len() as int,
                    spacing as int,
                    h as int,
                    w as int,
                    originv,
                ));
                assert(cells@.map_values(|c2: Coord| coord_view(c2)) =~= cspec(s + 1 as int));
            }
            s += 1;
        }
        let ghost cellsv = cells@.map_values(|c2: Coord| coord_view(c2));
        // sort the cells and drop duplicates
        let mut sorted: Vec<Coord> = Vec::new();
        let cn = cells.len();
        let mut i: usize = 0;
        proof {
            assert(sorted@.map_values(|c2: Coord| coord_view(c2)) =~= sort_cells(cellsv, 0));
        }
        while i < cn
            invariant
                i <= cn,
                cn == cells@.len(),
                cellsv == cells@.map_values(|c2: Coord| coord_view(c2)),
                sorted_coords(sorted@),
                sorted@.map_values(|c2: Coord| coord_view(c2)) == sort_cells(cellsv, i as int),
                forall|t2: int| 0 <= t2 < cells@.len() ==> (#[trigger] cells@[t2]).1 < usize::MAX,
                forall|t2: int| 0 <= t2 < sorted@.len() ==> (#[trigger] sorted@[t2]).1 < usize::MAX,
            decreases cn - i,
        {
            let c = coord_at(&cells, i);
            proof {
                assert(cellsv[i as int] == coord_view(c));
            }
            // insertion keeping the list sorted, skipping duplicates
            let mut pos: usize = 0;
            while pos < sorted.len() && coord_lt(sorted[pos], c)
                invariant
                    pos <= sorted@.len(),
                    sorted_coords(sorted@),
                    forall|t: int|
                        0 <= t < pos ==> coord_lt_spec(
                            coord_view(#[trigger] sorted@[t]),
                            coord_view(c),
                        ),
                decreases sorted@.len() - pos,
            {
                pos += 1;
            }
            let ghost pre = sorted@.map_values(|c2: Coord| coord_view(c2));
            proof {
                lemma_sort_insert(pre, coord_view(c), pos as int);
            }
            let dup = pos < sorted.len() && sorted[pos].0 == c.0 && sorted[pos].1 == c.1;
            if !dup {
                let ghost prev = sorted@;
                sorted.insert(pos, c);
                proof {
                    assert(sorted@.map_values(|c2: Coord| coord_view(c2)) =~= pre.insert(
                        pos as int,
                        coord_view(c),
                    ));
                    assert(sorted@ =~= prev.take(pos as int) + seq![c] + prev.skip(pos as int));
                    assert forall|a2: int, b2: int| 0 <= a2 < b2 < sorted@.len() implies
                        coord_lt_spec(
                        coord_view(sorted@[a2]),
                        coord_view(sorted@[b2]),
                    ) by {
                        if a2 < pos {
                            assert(sorted@[a2] == prev[a2]);
                        } else if a2 == pos {
                            assert(sorted@[a2] == c);
                        } else {
                            assert(sorted@[a2] == prev[a2 - 1]);
                        }
                        if b2 < pos {
                            assert(sorted@[b2] == prev[b2]);
                        } else if b2 == pos {
                            assert(sorted@[b2] == c);
                        } else {
                            assert(sorted@[b2] == prev[b2 - 1]);
                        }
                    }
                }
            } else {
                proof {
                    assert(sorted@.map_values(|c2: Coord| coord_view(c2)) =~= sort_cells(
                        cellsv,
                        i + 1 as int,
                    ));
                }
            }
            i += 1;
        }
        let ghost sortedv = sorted@.map_values(|c2: Coord| coord_view(c2));
        proof {
            assert(sortedv == sort_cells(cellsv, cellsv.len() as int));
        }
        // group into maximal same-row runs and blank each run
        let rn = sorted.len();
        let mut j: usize = 0;
        proof {
            assert(erase_fold(st0, fuv, sortedv, 0) == erase_fold(self.st(), fuv, sortedv, 0));
        }
        while j < rn
            invariant
                j <= rn,
                rn == sorted@.len(),
                sortedv == sorted@.map_values(|c2: Coord| coord_view(c2)),
                self.wf(),
                st0 == old(self).st(),
                fuv == coord_view(old(self).frozen_until),
                self.frozen_until == old(self).frozen_until,
                head_of(self.buffer@, fuv) == head_of(old(self).buffer@, fuv),
                self.selection == old(self).selection,
                self.dimensions == old(self).dimensions,
                self.grid_metrics == old(self).grid_metrics,
                self.origin == old(self).origin,
                erase_fold(st0, fuv, sortedv, 0) == erase_fold(self.st(), fuv, sortedv, j as int),
                forall|t2: int| 0 <= t2 < sorted@.len() ==> (#[trigger] sorted@[t2]).1 < usize::MAX,
            decreases rn - j,
        {
            let start = coord_at(&sorted, j);
            let mut endc: Coord = (start.0, start.1 + 1);
            let mut j2 = j + 1;
            let mut done = false;
            while j2 < rn && !done
                invariant
                    j < j2 <= rn,
                    rn == sorted@.len(),
                    sortedv == sorted@.map_values(|c2: Coord| coord_view(c2)),
                    endc.0 == start.0,
                    start.1 < endc.1 <= usize::MAX,
                    start == sorted@[j as int],
                    run_ext(
                        sortedv,
                        j + 1 as int,
                        (start.0 as int, start.1 + 1 as int),
                    ) == run_ext(sortedv, j2 as int, coord_view(endc)),
                    done ==> run_ext(sortedv, j2 as int, coord_view(endc)) == (
                        j2 as int,
                        coord_view(endc),
                    ),
                    forall|t2: int|
                        0 <= t2 < sorted@.len() ==> (#[trigger] sorted@[t2]).1 < usize::MAX,
                decreases rn - j2 + (if done {
                    0int
                } else {
                    1int
                }),
            {
                let nxt = coord_at(&sorted, j2);
                proof {
                    assert(sortedv[j2 as int] == coord_view(nxt));
                }
                if nxt.0 == endc.0 && nxt.1 == endc.1 && endc.1 < usize::MAX - 1 {
                    endc = (endc.0, endc.1 + 1);
                    j2 += 1;
                } else {
                    done = true;
                }
            }
            proof {
                if !done {
                    assert(run_ext(sortedv, j2 as int, coord_view(endc)) == (
                        j2 as int,
                        coord_view(endc),
                    ));
                }
                assert(run_ext(sortedv, j + 1 as int, (start.0 as int, start.1 + 1 as int)) == (
                    j2 as int,
                    coord_view(endc),
                ));
                lemma_run_ext_ge(sortedv, j + 1 as int, (start.0 as int, start.1 + 1 as int));
            }
            let ghost w_cur = self.st();
            let cs = self.buffer.clamp(start);
            let ce = self.buffer.clamp(endc);
            proof {
                lemma_clamp_monotone(self.buffer@, coord_view(start), coord_view(endc));
            }
            let pad = TextBuffer::padding(diff_coord(cs, ce));
            let ghost pre_buf = self.buffer@;
            let ghost fu2 = coord_view(self.frozen_until);
            proof {
                assert(fu2 == fuv);
            }
            self.replace(Replace { from: cs, until: ce, content: pad });
            proof {
                assert(head_of(self.buffer@, fu2) == head_of(pre_buf, fu2));
                assert(head_of(self.buffer@, fuv) == head_of(pre_buf, fuv));
                assert(self.st() == replace_tr(
                    w_cur,
                    fuv,
                    clamp_spec(w_cur.buffer, coord_view(start)),
                    clamp_spec(w_cur.buffer, coord_view(endc)),
                    pad_of(
                        diff_coord_spec(
                            clamp_spec(w_cur.buffer, coord_view(start)),
                            clamp_spec(w_cur.buffer, coord_view(endc)),
                        ),
                    ),
                ));
                assert(erase_fold(st0, fuv, sortedv, 0) == erase_fold(
                    self.st(),
                    fuv,
                    sortedv,
                    j2 as int,
                ));
            }
            j = j2;
        }
        proof {
            assert(erase_fold(self.st(), fuv, sortedv, rn as int) == self.st());
        }
    }

    /// Search the rows after (or before) the selection's row for the first
    /// identical run of characters, and move the selection there.
    pub fn find_token(&mut self, start: Coord, end: Coord, forward: bool)
        requires
            old(self).wf(),
            coord_le_spec(coord_view(start), coord_view(end)),
        ensures
            final(self).wf(),
            final(self).buffer@ == old(self).buffer@,
            final(self).frozen_until == old(self).frozen_until,
            final(self).dimensions == old(self).dimensions,
            final(self).grid_metrics == old(self).grid_metrics,
            final(self).undos == old(self).undos,
            final(self).redos == old(self).redos,
            final(self).tentative_recognitions == old(self).tentative_recognitions,
            ({
                let o = find_outcome(
                    old(self).buffer@,
                    coord_view(old(self).dimensions),
                    old(self).selection@,
                    coord_view(old(self).origin),
                    coord_view(start),
                    coord_view(end),
                    forward,
                );
                final(self).selection@ == o.0 && coord_view(final(self).origin) == o.1
            }),
    {
        let ghost b0 = self.buffer@;
        let query_buf = self.buffer.copy(start, end);
        let query = &query_buf.contents[0];
        proof {
            assert(query@ == copy_spec(
                b0,
                clamp_spec(b0, coord_view(start)),
                clamp_spec(b0, coord_view(end)),
            )[0]);
        }
        let qn = query.len();
        if qn == 0 {
            return ;
        }
        let rows = self.buffer.contents.len();
        if start.0 >= usize::MAX - 1 {
            return ;
        }
        let mut found: Option<Coord> = None;
        if forward {
            let mut row = start.0 + 1;
            while row < rows && found.is_none()
                invariant
                    start.0 + 1 <= row,
                    rows == self.buffer@.len(),
                    self.wf(),
                    b0 == self.buffer@,
                    qn == query@.len(),
                    qn >= 1,
                    found is None ==> search_fwd(b0, query@, start.0 + 1 as int) == search_fwd(
                        b0,
                        query@,
                        row as int,
                    ),
                    found matches Some(f) ==> search_fwd(b0, query@, start.0 + 1 as int) == Some(
                        coord_view(f),
                    ),
                decreases rows - row + (if found is None {
                    1int
                } else {
                    0int
                }),
            {
                found = find_in_row(&self.buffer, row, query);
                if found.is_none() {
                    row += 1;
                }
            }
            proof {
                if found is None {
                    assert(search_fwd(b0, query@, row as int) is None);
                }
            }
        } else {
            let mut row = if start.0 < rows {
                start.0
            } else {
                rows
            };
            let ghost row0 = row as int;
            while row > 0 && found.is_none()
                invariant
                    rows == self.buffer@.len(),
                    self.wf(),
                    b0 == self.buffer@,
                    qn == query@.len(),
                    qn >= 1,
                    row <= rows,
                    row0 == (if start.0 < rows {
                        start.0 as int
                    } else {
                        rows as int
                    }),
                    found is None ==> search_bwd(b0, query@, row0) == search_bwd(
                        b0,
                        query@,
                        row as int,
                    ),
                    found matches Some(f) ==> search_bwd(b0, query@, row0) == Some(coord_view(f)),
                decreases row + (if found is None {
                    1int
                } else {
                    0int
                }),
            {
                row -= 1;
                found = find_in_row(&self.buffer, row, query);
                proof {
                    if found is None {
                        assert(search_bwd(b0, query@, row + 1 as int) == search_bwd(
                            b0,
                            query@,
                            row as int,
                        ));
                    }
                }
            }
            proof {
                if found is None {
                    assert(search_bwd(b0, query@, row as int) is None);
                }
            }
        }
        if let Some(new_start) = found {
            let d = diff_coord(start, end);
            if d.0 == 0 && new_start.1 > usize::MAX - d.1 {
                return ;
            }
            if new_start.0 > usize::MAX - d.0 {
                return ;
            }
            let new_end = add_coord(new_start, d);
            let mut sel = Selection::Normal;
            core::mem::swap(&mut self.selection, &mut sel);
            if let Selection::Range { start: mut s0, end: mut e0 } = sel {
                let ghost s0v = s0@;
                let ghost e0v = e0@;
                s0.coord = new_start;
                e0.coord = new_end;
                proof {
                    assert(s0@ =~~= (CaratView { coord: coord_view(new_start), ink: s0v.ink }));
                    assert(e0@ =~~= (CaratView { coord: coord_view(new_end), ink: e0v.ink }));
                }
                self.selection = Selection::Range { start: s0, end: e0 };
                self.scroll_into_view(new_end);
                self.scroll_into_view(new_start);
            } else {
                self.selection = sel;
            }
        }
    }
}

/// The first column of a row where the query's characters appear as a
/// contiguous run.
fn find_in_row(buffer: &TextBuffer, row: usize, query: &Vec<char>) -> (r: Option<Coord>)
    requires
        buffer.wf(),
        row < buffer@.len(),
        query@.len() >= 1,
    ensures
        ({
            let hit = first_hit_in_row(buffer@, row as int, query@, 0);
            match r {
                Option::None => hit is None,
                Option::Some(c) => hit == Some(c.1 as int) && c.0 == row,
            }
        }),
{
    let cols = buffer.contents[row].len();
    let qn = query.len();
    if cols < qn {
        return None;
    }
    let mut col: usize = 0;
    while col <= cols - qn
        invariant
            buffer.wf(),
            row < buffer@.len(),
            cols == buffer@[row as int].len(),
            qn == query@.len(),
            1 <= qn <= cols,
            col <= cols - qn + 1,
            first_hit_in_row(buffer@, row as int, query@, 0) == first_hit_in_row(
                buffer@,
                row as int,
                query@,
                col as int,
            ),
        decreases cols - qn - col + 1,
    {
        let ghost rowv = buffer@[row as int];
        let mut matches_here = true;
        let mut j: usize = 0;
        while j < qn && matches_here
            invariant
                j <= qn,
                buffer.wf(),
                row < buffer@.len(),
                rowv == buffer@[row as int],
                cols == rowv.len(),
                qn == query@.len(),
                col + qn <= cols,
                matches_here ==> forall|t: int|
                    0 <= t < j ==> rowv[col + t] == query@[t],
                !matches_here ==> rowv.subrange(col as int, col + qn as int) != query@,
            decreases qn - j + (if matches_here {
                1int
            } else {
                0int
            }),
        {
            if buffer.contents[row][col + j] != query[j] {
                proof {
                    assert(rowv.subrange(col as int, col + qn as int)[j as int] == rowv[col + j]);
                }
                matches_here = false;
            } else {
                j += 1;
            }
        }
        if matches_here {
            proof {
                assert(rowv.subrange(col as int, col + qn as int) =~= query@);
            }
            return Some((row, col));
        }
        proof {
            assert(first_hit_in_row(buffer@, row as int, query@, col as int)
                == first_hit_in_row(buffer@, row as int, query@, col + 1 as int));
        }
        col += 1;
    }
    proof {
        assert(first_hit_in_row(buffer@, row as int, query@, col as int) is None);
    }
    None
}

fn rec_coord_at(q: &VecDeque<Recognition>, i: usize) -> (c: Coord)
    requires
        i < q@.len(),
    ensures
        c == q@[i as int].coord,
{
    q[i].coord
}

fn coord_at(v: &Vec<Coord>, i: usize) -> (c: Coord)
    requires
        i < v@.len(),
    ensures
        c == v@[i as int],
{
    v[i]
}

/// The first column at or after `col` where the query appears as a
/// contiguous run in the given row.
pub open spec fn first_hit_in_row(b: Seq<Seq<char>>, row: int, q: Seq<char>, col: int) -> Option<
    int,
>
    recommends
        0 <= row < b.len(),
        0 <= col,
    decreases b[row].len() + 1 - col,
{
    if col < 0 || col + q.len() > b[row].len() {
        None
    } else if b[row].subrange(col, col + q.len() as int) == q {
        Some(col)
    } else {
        first_hit_in_row(b, row, q, col + 1)
    }
}

/// The first hit in any row at or after `row`.
pub open spec fn search_fwd(b: Seq<Seq<char>>, q: Seq<char>, row: int) -> Option<(int, int)>
    decreases b.len() - row,
{
    if row < 0 || row >= b.len() {
        None
    } else {
        match first_hit_in_row(b, row, q, 0) {
            Some(c) => Some(((row, c))),
            None => search_fwd(b, q, row + 1),
        }
    }
}

/// The first hit in any row strictly before `row`, nearest first.
pub open spec fn search_bwd(b: Seq<Seq<char>>, q: Seq<char>, row: int) -> Option<(int, int)>
    decreases row,
{
    if row <= 0 || row > b.len() {
        None
    } else {
        match first_hit_in_row(b, row - 1, q, 0) {
            Some(c) => Some(((row - 1, c))),
            None => search_bwd(b, q, row - 1),
        }
    }
}

/// Where a find-next or find-previous lands: the selected text is the
/// literal query; rows after (or before) the query's own row are searched
/// for the first identical run.
pub open spec fn find_spec(
    b: Seq<Seq<char>>,
    start: (int, int),
    end: (int, int),
    forward: bool,
) -> Option<(int, int)>
    recommends
        buf_wf(b),
{
    let q = copy_spec(b, clamp_spec(b, start), clamp_spec(b, end))[0];
    if q.len() == 0 || start.0 >= usize::MAX - 1 {
        None
    } else if forward {
        search_fwd(b, q, start.0 + 1)
    } else {
        search_bwd(b, q, if start.0 < b.len() {
            start.0
        } else {
            b.len() as int
        })
    }
}

/// The selection and viewport after a find gesture: on a hit whose target
/// fits the coordinate space, a Range selection moves to the match (keeping
/// its inks) and both endpoints are scrolled into view; otherwise nothing
/// changes.
pub open spec fn find_outcome(
    b: Seq<Seq<char>>,
    dims: (int, int),
    sel: SelectionView,
    origin: (int, int),
    start: (int, int),
    end: (int, int),
    forward: bool,
) -> (SelectionView, (int, int)) {
    let hit = find_spec(b, start, end, forward);
    let d = diff_coord_spec(start, end);
    match hit {
        Option::None => (sel, origin),
        Option::Some(ns) => {
            let ne = add_coord_spec(ns, d);
            if ne.0 <= usize::MAX && ne.1 <= usize::MAX {
                match sel {
                    SelectionView::Range { start: s0, end: e0 } => (
                        SelectionView::Range {
                            start: CaratView { coord: ns, ink: s0.ink },
                            end: CaratView { coord: ne, ink: e0.ink },
                        },
                        (
                            clamp_rel_spec(clamp_rel_spec(origin.0, ne.0, dims.0), ns.0, dims.0),
                            clamp_rel_spec(clamp_rel_spec(origin.1, ne.1, dims.1), ns.1, dims.1),
                        ),
                    ),
                    _ => (sel, origin),
                }
            } else {
                (sel, origin)
            }
        },
    }
}

/// The endpoints a gesture command acts on: a single carat gives an empty
/// span at its coordinate, a range gives its two ends.
pub open spec fn sel_ends(s: SelectionView) -> ((int, int), (int, int))
    recommends
        !(s is Normal),
{
    match s {
        SelectionView::Single { carat } => (carat.coord, carat.coord),
        SelectionView::Range { start, end } => (start.coord, end.coord),
        SelectionView::Normal => (((0int, 0int)), ((0int, 0int))),
    }
}

proof fn lemma_sort_insert(acc: Seq<(int, int)>, c: (int, int), pos: int)
    requires
        forall|a2: int, b2: int|
            0 <= a2 < b2 < acc.len() ==> coord_lt_spec(#[trigger] acc[a2], #[trigger] acc[b2]),
        0 <= pos <= acc.len(),
        forall|t: int| 0 <= t < pos ==> coord_lt_spec(#[trigger] acc[t], c),
        pos < acc.len() ==> !coord_lt_spec(acc[pos], c),
    ensures
        sort_insert(acc, c) == (if pos < acc.len() && acc[pos] == c {
            acc
        } else {
            acc.insert(pos, c)
        }),
    decreases acc.len(),
{
    if acc.len() == 0 {
        assert(sort_insert(acc, c) =~= acc.insert(0, c));
    } else if pos == 0 {
        if acc[0] == c {
        } else {
            assert(sort_insert(acc, c) =~= acc.insert(0, c));
        }
    } else {
        assert(forall|t: int| 0 <= t < acc.len() - 1 ==> acc.skip(1)[t] == acc[t + 1]);
        lemma_sort_insert(acc.skip(1), c, pos - 1);
        if pos < acc.len() && acc[pos] == c {
            assert(sort_insert(acc, c) =~= acc);
        } else {
            assert(sort_insert(acc, c) =~= seq![acc[0]] + acc.skip(1).insert(pos - 1, c));
            assert(seq![acc[0]] + acc.skip(1).insert(pos - 1, c) =~= acc.insert(pos, c));
        }
    }
}

/// Coordinates in strictly increasing lexicographic order.
pub open spec fn sorted_coords(v: Seq<Coord>) -> bool {
    forall|i: int, j: int|
        0 <= i < j < v.len() ==> coord_lt_spec(coord_view(#[trigger] v[i]), coord_view(
            #[trigger] v[j],
        ))
}

/// The exact product-then-quotient `d * t / n` used for segment walking.
fn mul_div(d: i64, t: i64, n: i64) -> (r: i64)
    requires
        -0x4000_0000 <= d <= 0x4000_0000,
        0 <= t <= 0x4000_0002,
        1 <= n <= 0x4000_0002,
    ensures
        r as int == crate::geom::floor_div_spec(d as int * t as int, n as int),
        -0x1000_0001_0000_0000 <= r <= 0x1000_0001_0000_0000,
{
    proof {
        assert(-0x1000_0000_8000_0000 <= (d as int) * (t as int) <= 0x1000_0000_8000_0000)
            by (nonlinear_arith)
            requires
                -0x4000_0000 <= d <= 0x4000_0000,
                0 <= t <= 0x4000_0002,
        ;
    }
    let prod = d * t;
    let q = crate::geom::floor_div(prod, n);
    proof {
        broadcast use vstd::arithmetic::div_mod::lemma_fundamental_div_mod;
        broadcast use vstd::arithmetic::div_mod::lemma_mod_bound;

        assert(prod as int == (n as int) * ((prod as int) / (n as int)) + (prod as int) % (
        n as int));
        assert(0 <= (prod as int) % (n as int) < n as int);
        assert(-0x1000_0001_0000_0000 <= (prod as int) / (n as int) <= 0x1000_0001_0000_0000)
            by (nonlinear_arith)
            requires
                prod as int == (n as int) * ((prod as int) / (n as int)) + (prod as int) % (
                n as int),
                0 <= (prod as int) % (n as int) < n as int,
                1 <= n,
                -0x1000_0000_8000_0000 <= prod <= 0x1000_0000_8000_0000,
        ;
    }
    q
}



/// Which pen behaviour the window wants: normal glyph entry, or the special
/// gesture-command mode that an active selection switches to.
pub enum InkMode {
    Normal,
    Special,
}

/// What one visible grid cell shows: the character with its ink weight (a
/// line or buffer terminator glyph is shown faintly at a row's end), and
/// whether the cell is underlined or carries guidelines.
pub struct CellDesc {
    pub character: Option<(char, u8)>,
    pub underline: bool,
    pub draw_guidelines: bool,
}

impl TextWindow {
    /// Normal glyph entry without a selection; gesture-command mode with one.
    pub fn mode(&self) -> (r: InkMode)
        ensures
            r is Normal <==> self.selection@ is Normal,
    {
        match &self.selection {
            Selection::Normal => InkMode::Normal,
            _ => InkMode::Special,
        }
    }

    /// The render descriptor of the visible cell at the given viewport
    /// offset: the buffer's character there at full weight, a faint line or
    /// buffer terminator at a row's end, underlining inside a range
    /// selection, and guidelines outside the frozen prefix when nothing is
    /// selected.
    pub fn cell_desc(&self, offset: Coord) -> (r: CellDesc)
        requires
            self.wf(),
        ensures
            ({
                let coord = rel_spec(coord_view(self.origin), coord_view(offset));
                let b = self.buffer@;
                &&& r.underline == (match self.selection@ {
                    SelectionView::Range { start, end } => coord_le_spec(start.coord, coord)
                        && coord_lt_spec(coord, end.coord),
                    _ => false,
                })
                &&& r.draw_guidelines == (self.selection@ is Normal && coord_le_spec(
                    coord_view(self.frozen_until),
                    coord,
                ))
                &&& r.character == (if coord.0 < b.len() {
                    if coord.1 < b[coord.0].len() {
                        Some((b[coord.0][coord.1], 230u8))
                    } else if coord.1 == b[coord.0].len() {
                        if coord.0 + 1 == b.len() {
                            Some(('\u{2327}', 80u8))
                        } else {
                            Some(('\u{23CE}', 80u8))
                        }
                    } else {
                        None
                    }
                } else {
                    None
                })
            }),
    {
        let coord = self.relative(offset);
        let underline = match &self.selection {
            Selection::Range { start, end } => coord_le(start.coord, coord) && coord_lt(
                coord,
                end.coord,
            ),
            _ => false,
        };
        let draw_guidelines = match &self.selection {
            Selection::Normal => coord_le(self.frozen_until, coord),
            _ => false,
        };
        let rows = self.buffer.contents.len();
        let character = if coord.0 < rows {
            let len = self.buffer.contents[coord.0].len();
            if coord.1 < len {
                Some((self.buffer.contents[coord.0][coord.1], 230u8))
            } else if coord.1 == len {
                if coord.0 + 1 == rows {
                    Some(('\u{2327}', 80u8))
                } else {
                    Some(('\u{23CE}', 80u8))
                }
            } else {
                None
            }
        } else {
            None
        };
        CellDesc { character, underline, draw_guidelines }
    }
}

/// The first tentative record at a coordinate.
pub open spec fn find_rec(recs: Seq<RecognitionView>, coord: (int, int)) -> Option<int>
    decreases recs.len(),
{
    if recs.len() == 0 {
        None
    } else if recs[0].coord == coord {
        Some(0int)
    } else {
        match find_rec(recs.skip(1), coord) {
            Some(i) => Some(i + 1),
            None => None,
        }
    }
}

proof fn lemma_find_rec_at(recs: Seq<RecognitionView>, coord: (int, int), j: int)
    requires
        0 <= j < recs.len(),
        recs[j].coord == coord,
        forall|t: int| 0 <= t < j ==> (#[trigger] recs[t]).coord != coord,
    ensures
        find_rec(recs, coord) == Some(j),
    decreases j,
{
    if j > 0 {
        assert(forall|t: int| 0 <= t < recs.len() - 1 ==> recs.skip(1)[t] == recs[t + 1]);
        lemma_find_rec_at(recs.skip(1), coord, j - 1);
    }
}

proof fn lemma_find_rec_absent(recs: Seq<RecognitionView>, coord: (int, int))
    requires
        forall|t: int| 0 <= t < recs.len() ==> (#[trigger] recs[t]).coord != coord,
    ensures
        find_rec(recs, coord) is None,
    decreases recs.len(),
{
    if recs.len() > 0 {
        assert(forall|t: int| 0 <= t < recs.len() - 1 ==> recs.skip(1)[t] == recs[t + 1]);
        lemma_find_rec_absent(recs.skip(1), coord);
    }
}

/// Remove the tentative record at a coordinate, handing back its overwritten
/// inks extended with its own; with no record there, nothing changes.
pub open spec fn pull_rec(recs: Seq<RecognitionView>, coord: (int, int)) -> (
    Seq<RecognitionView>,
    Seq<Seq<StrokeView>>,
) {
    match find_rec(recs, coord) {
        Some(i) => (recs.remove(i), recs[i].overwrites.push(recs[i].ink)),
        None => (recs, Seq::<Seq<StrokeView>>::empty()),
    }
}

/// An evicted record's overwritten inks fed to the learner in order; empty
/// inks are skipped.
pub open spec fn feed_tr(
    stuff: crate::hwr::StuffState,
    ows: Seq<Seq<StrokeView>>,
    ch: char,
    m: Metrics,
) -> crate::hwr::StuffState
    decreases ows.len(),
{
    if ows.len() == 0 {
        stuff
    } else {
        let stuff1 = if ows[0].len() >= 1 {
            crate::hwr::overwrite_tr(
                stuff,
                ows[0],
                crate::points::grid_cloud_of(
                    ows[0],
                    m.height as int,
                    m.width as int,
                    m.baseline as int,
                ),
                ch,
            ).0
        } else {
            stuff
        };
        feed_tr(stuff1, ows.skip(1), ch, m)
    }
}

/// One glyph token's full effect: the token's cloud is scored (reordering
/// the recognizer), and an accepted character is written at the token's
/// cell, recorded as a tentative recognition (folding in any older record at
/// that cell), with an evicted record's overwrites fed to the learner.
pub open spec fn token_tr(
    w: WinState,
    stuff: crate::hwr::StuffState,
    fu: (int, int),
    origin: (int, int),
    m: Metrics,
    col: (int, int),
    ink: Seq<StrokeView>,
) -> (WinState, crate::hwr::StuffState) {
    let coord = rel_spec(origin, col);
    let cloud = crate::points::grid_cloud_of(ink, m.height as int, m.width as int, m.baseline as int);
    let bm = crate::points::bm_tr(stuff.rec_t, stuff.rec_c, cloud, u64::MAX as int);
    let stuff2 = crate::hwr::StuffState { rec_t: bm.0, rec_c: bm.1, ..stuff };
    match bm.2 {
        None => (w, stuff2),
        Some(c) => {
            let pulled = pull_rec(w.recs, coord);
            let recon = RecognitionView {
                coord,
                ink,
                recognized_as: c,
                overwrites: pulled.1,
            };
            let w1 = replace_tr(
                WinState { recs: pulled.0, ..w },
                fu,
                coord,
                (coord.0, coord.1 + 1),
                lines_of(seq![c]),
            );
            let w2 = WinState {
                recs: ring_push(w1.recs, recon, NUM_RECENT_RECOGNITIONS as int),
                ..w1
            };
            if w1.recs.len() >= NUM_RECENT_RECOGNITIONS {
                (w2, feed_tr(stuff2, w1.recs[0].overwrites, w1.recs[0].recognized_as, m))
            } else {
                (w2, stuff2)
            }
        },
    }
}

/// The glyph tokens applied left to right.
pub open spec fn glyphs_tr(
    w: WinState,
    stuff: crate::hwr::StuffState,
    fu: (int, int),
    origin: (int, int),
    m: Metrics,
    tokens: Seq<((int, int), Seq<StrokeView>)>,
) -> (WinState, crate::hwr::StuffState)
    decreases tokens.len(),
{
    if tokens.len() == 0 {
        (w, stuff)
    } else {
        let step = token_tr(w, stuff, fu, origin, m, tokens[0].0, tokens[0].1);
        glyphs_tr(step.0, step.1, fu, origin, m, tokens.skip(1))
    }
}

impl TextWindow {
    /// Dispatch one classified gesture into the window: a scratch blanks its
    /// cell, glyphs are recognized and written (feeding the tentative
    /// recognition tracker and, on eviction, the adaptive learner), a
    /// strikethrough removes its span, a carat advances the selection state
    /// machine, and a gesture command acts on the current selection. The
    /// frozen prefix is never edited.
    #[verifier::rlimit(100)]
    #[verifier::spinoff_prover]
    pub fn ink_row(&mut self, ink_type: InkType, text_stuff: &mut TextStuff)
        requires
            old(self).wf(),
            old(text_stuff).wf(),
            ink_type_wf(ink_type),
        ensures
            final(self).wf(),
            final(text_stuff).wf(),
            final(self).frozen_until == old(self).frozen_until,
            final(self).dimensions == old(self).dimensions,
            final(self).grid_metrics == old(self).grid_metrics,
            head_of(final(self).buffer@, coord_view(old(self).frozen_until)) == head_of(
                old(self).buffer@,
                coord_view(old(self).frozen_until),
            ),
            ink_type matches InkType::Scratch { at } ==> ({
                let coord = rel_spec(coord_view(old(self).origin), coord_view(at));
                &&& final(self).st() == replace_tr(
                    old(self).st(),
                    coord_view(old(self).frozen_until),
                    coord,
                    (coord.0, coord.1 + 1),
                    lines_of(seq![' ']),
                )
                &&& final(self).selection == old(self).selection
                &&& final(self).origin == old(self).origin
                &&& *final(text_stuff) == *old(text_stuff)
            }),
            ink_type matches InkType::Strikethrough { start, end } ==> ({
                let s = rel_spec(coord_view(old(self).origin), coord_view(start));
                let e = rel_spec(coord_view(old(self).origin), coord_view(end));
                &&& (coord_le_spec(s, e) ==> final(self).st() == replace_tr(
                    old(self).st(),
                    coord_view(old(self).frozen_until),
                    s,
                    e,
                    seq![Seq::<char>::empty()],
                ))
                &&& (!coord_le_spec(s, e) ==> final(self).st() == old(self).st())
                &&& final(self).selection == old(self).selection
                &&& final(self).origin == old(self).origin
                &&& *final(text_stuff) == *old(text_stuff)
            }),
            ink_type matches InkType::Carat { at, ink } ==> ({
                let coord = rel_spec(coord_view(old(self).origin), coord_view(at));
                &&& final(self).selection@ == sel_step(
                    old(self).selection@,
                    CaratView { coord, ink: ink@ },
                )
                &&& final(self).st() == old(self).st()
                &&& final(self).origin == old(self).origin
                &&& *final(text_stuff) == *old(text_stuff)
            }),
            ink_type matches InkType::LineTo { coord } ==> final(self).st() == old(self).st()
                && final(self).selection == old(self).selection && final(self).origin == old(
                self,
            ).origin && *final(text_stuff) == *old(text_stuff),
            ink_type matches InkType::Glyphs { tokens } ==> ({
                let fold = glyphs_tr(
                    old(self).st(),
                    old(text_stuff).st(),
                    coord_view(old(self).frozen_until),
                    coord_view(old(self).origin),
                    old(self).grid_metrics,
                    tokens@.map_values(|p: (Coord, Ink)| (coord_view(p.0), p.1@)),
                );
                &&& final(self).st() == fold.0
                &&& final(text_stuff).st() == fold.1
                &&& final(self).selection == old(self).selection
                &&& final(self).origin == old(self).origin
            }),
            ink_type matches InkType::BigGlyph { token } ==> ({
                let b = old(self).buffer@;
                let fu = coord_view(old(self).frozen_until);
                let dims = coord_view(old(self).dimensions);
                let s0 = old(text_stuff).st();
                let bm = crate::points::bm_tr(
                    s0.big_t,
                    s0.big_c,
                    crate::points::shape_cloud_of(token@),
                    u64::MAX as int,
                );
                let stuff1 = (crate::hwr::StuffState { big_t: bm.0, big_c: bm.1, ..s0 });
                let unchanged = final(self).st() == old(self).st() && final(self).selection@
                    == old(self).selection@ && final(self).origin == old(self).origin
                    && final(text_stuff).st() == stuff1;
                if old(self).selection@ is Normal || bm.2 is None {
                    unchanged
                } else {
                    let ends = sel_ends(old(self).selection@);
                    let startv = ends.0;
                    let endv = ends.1;
                    let distinct = startv != endv;
                    let ordered = coord_le_spec(startv, endv);
                    let c = bm.2->0;
                    if c == 'X' {
                        if distinct && ordered {
                            &&& final(text_stuff).st() == (crate::hwr::StuffState {
                                clipboard: Some(
                                    copy_spec(b, clamp_spec(b, startv), clamp_spec(b, endv)),
                                ),
                                ..stuff1
                            })
                            &&& final(self).st() == replace_tr(
                                old(self).st(),
                                fu,
                                startv,
                                endv,
                                seq![Seq::<char>::empty()],
                            )
                            &&& final(self).selection@ is Normal
                            &&& final(self).origin == old(self).origin
                        } else {
                            unchanged
                        }
                    } else if c == 'C' {
                        if distinct && ordered {
                            &&& final(text_stuff).st() == (crate::hwr::StuffState {
                                clipboard: Some(
                                    copy_spec(b, clamp_spec(b, startv), clamp_spec(b, endv)),
                                ),
                                ..stuff1
                            })
                            &&& final(self).st() == old(self).st()
                            &&& final(self).selection@ is Normal
                            &&& final(self).origin == old(self).origin
                        } else {
                            unchanged
                        }
                    } else if c == 'V' {
                        &&& (match s0.clipboard {
                            Some(content) => if ordered {
                                final(self).st() == replace_tr(
                                    old(self).st(),
                                    fu,
                                    startv,
                                    endv,
                                    content,
                                )
                            } else {
                                final(self).st() == old(self).st()
                            },
                            None => final(self).st() == old(self).st(),
                        })
                        &&& final(text_stuff).st() == stuff1
                        &&& final(self).selection@ is Normal
                        &&& final(self).origin == old(self).origin
                    } else if c == 'S' || c == '>' {
                        &&& (ordered ==> final(self).st() == replace_tr(
                            old(self).st(),
                            fu,
                            startv,
                            startv,
                            pad_of(diff_coord_spec(startv, endv)),
                        ))
                        &&& (!ordered ==> final(self).st() == old(self).st())
                        &&& final(text_stuff).st() == stuff1
                        &&& final(self).selection@ is Normal
                        &&& final(self).origin == old(self).origin
                    } else if c == '<' {
                        &&& (ordered ==> final(self).st() == replace_tr(
                            old(self).st(),
                            fu,
                            startv,
                            endv,
                            seq![Seq::<char>::empty()],
                        ))
                        &&& (!ordered ==> final(self).st() == old(self).st())
                        &&& final(text_stuff).st() == stuff1
                        &&& final(self).selection@ is Normal
                        &&& final(self).origin == old(self).origin
                    } else if c == 'Q' {
                        let line_start = (startv.0, 0int);
                        let end2 = if !distinct {
                            clamp_spec(b, (endv.0, usize::MAX as int))
                        } else {
                            endv
                        };
                        let rem_w = if startv.1 < dims.1 {
                            dims.1 - startv.1
                        } else {
                            1int
                        };
                        &&& (coord_le_spec(line_start, startv) && coord_le_spec(startv, end2)
                            ==> final(self).st() == replace_tr(
                            old(self).st(),
                            fu,
                            startv,
                            end2,
                            lines_of(
                                crate::wrap::reflow_spec(
                                    content_of(
                                        copy_spec(b, clamp_spec(b, startv), clamp_spec(b, end2)),
                                    ),
                                    content_of(
                                        copy_spec(
                                            b,
                                            clamp_spec(b, line_start),
                                            clamp_spec(b, startv),
                                        ),
                                    ),
                                    rem_w,
                                ),
                            ),
                        ))
                        &&& (!(coord_le_spec(line_start, startv) && coord_le_spec(startv, end2))
                            ==> final(self).st() == old(self).st())
                        &&& final(text_stuff).st() == stuff1
                        &&& final(self).selection@ is Normal
                        &&& final(self).origin == old(self).origin
                    } else if c == 'N' || c == 'P' {
                        &&& (distinct && startv.0 == endv.0 && ordered ==> ({
                            let o = find_outcome(
                                b,
                                dims,
                                old(self).selection@,
                                coord_view(old(self).origin),
                                startv,
                                endv,
                                c == 'N',
                            );
                            final(self).selection@ == o.0 && coord_view(final(self).origin)
                                == o.1 && final(self).st() == old(self).st()
                        }))
                        &&& (!(distinct && startv.0 == endv.0 && ordered) ==> final(self).st()
                            == old(self).st() && final(self).selection@ == old(self).selection@
                            && final(self).origin == old(self).origin)
                        &&& final(text_stuff).st() == stuff1
                    } else {
                        unchanged
                    }
                }
            }),
    {
        let ghost fuv = coord_view(old(self).frozen_until);
        match ink_type {
            InkType::Scratch { at } => {
                let coord = self.relative(at);
                self.replace(Replace::write(coord, ' '));
            },
            InkType::Glyphs { tokens } => {
                let mut tokens = tokens;
                let ghost tv = tokens@;
                let ghost tvv = tv.map_values(|p: (Coord, Ink)| (coord_view(p.0), p.1@));
                let ghost st0 = old(self).st();
                let ghost ss0 = old(text_stuff).st();
                let ghost originv = coord_view(old(self).origin);
                let ghost m0 = old(self).grid_metrics;
                let n = tokens.len();
                let mut i: usize = 0;
                proof {
                    assert(tv.skip(0) =~= tv);
                    assert(tvv.skip(0) =~= tvv);
                }
                while i < n
                    invariant
                        i <= n,
                        n == tv.len(),
                        tokens@ == tv.skip(i as int),
                        tvv == tv.map_values(|p: (Coord, Ink)| (coord_view(p.0), p.1@)),
                        forall|t: int|
                            0 <= t < tv.len() ==> (#[trigger] tv[t]).1.wf() && tv[t].1@.len() >= 1,
                        self.wf(),
                        text_stuff.wf(),
                        st0 == old(self).st(),
                        ss0 == old(text_stuff).st(),
                        originv == coord_view(old(self).origin),
                        m0 == old(self).grid_metrics,
                        fuv == coord_view(old(self).frozen_until),
                        self.frozen_until == old(self).frozen_until,
                        self.dimensions == old(self).dimensions,
                        self.grid_metrics == old(self).grid_metrics,
                        self.selection == old(self).selection,
                        self.origin == old(self).origin,
                        head_of(self.buffer@, fuv) == head_of(old(self).buffer@, fuv),
                        glyphs_tr(st0, ss0, fuv, originv, m0, tvv) == glyphs_tr(
                            self.st(),
                            text_stuff.st(),
                            fuv,
                            originv,
                            m0,
                            tvv.skip(i as int),
                        ),
                    decreases n - i,
                {
                    proof {
                        assert(tv.skip(i as int)[0] == tv[i as int]);
                        assert(tv.skip(i as int).skip(1) =~= tv.skip(i + 1 as int));
                        assert(tvv.skip(i as int)[0] == tvv[i as int]);
                        assert(tvv.skip(i as int).skip(1) =~= tvv.skip(i + 1 as int));
                        assert(tvv[i as int] == (coord_view(tv[i as int].0), tv[i as int].1@));
                    }
                    let ghost w_cur = self.st();
                    let ghost s_cur = text_stuff.st();
                    let (col, ink) = tokens.remove(0);
                    let ghost inkv = ink@;
                    let coord = self.relative(col);
                    let ghost coordv = coord_view(coord);
                    let cloud = PointCloud::from_ink_grid(&ink, &self.grid_metrics);
                    let best = text_stuff.char_recognizer.best_match(&cloud, u64::MAX);
                    let ghost bm = crate::points::bm_tr(
                        s_cur.rec_t,
                        s_cur.rec_c,
                        cloud@,
                        u64::MAX as int,
                    );
                    proof {
                        assert(text_stuff.st() =~~= (crate::hwr::StuffState {
                            rec_t: bm.0,
                            rec_c: bm.1,
                            ..s_cur
                        }));
                    }
                    let ghost s_bm = text_stuff.st();
                    match best {
                        Some(c) => {
                            // a rewrite of the same cell means the old guess
                            // was probably wrong: keep its ink as evidence
                            let ghost rqv = self.tentative_recognitions@.map_values(
                                |r: Recognition| r@,
                            );
                            let mut overwrites: Vec<Ink> = Vec::new();
                            let rn = self.tentative_recognitions.len();
                            let mut idx: usize = 0;
                            let mut found = false;
                            while idx < rn && !found
                                invariant
                                    idx <= rn,
                                    rn == self.tentative_recognitions@.len(),
                                    rqv == self.tentative_recognitions@.map_values(
                                        |r: Recognition| r@,
                                    ),
                                    coordv == coord_view(coord),
                                    self.wf(),
                                    found ==> idx < rn && rqv[idx as int].coord == coordv,
                                    forall|t: int|
                                        0 <= t < idx ==> (#[trigger] rqv[t]).coord != coordv,
                                decreases rn - idx + (if found {
                                    0int
                                } else {
                                    1int
                                }),
                            {
                                let rc = rec_coord_at(&self.tentative_recognitions, idx);
                                proof {
                                    assert(rqv[idx as int].coord == coord_view(
                                        self.tentative_recognitions@[idx as int].coord,
                                    ));
                                }
                                if rc.0 == coord.0 && rc.1 == coord.1 {
                                    found = true;
                                } else {
                                    idx += 1;
                                }
                            }
                            let ghost pulled = pull_rec(w_cur.recs, coordv);
                            if found {
                                proof {
                                    assert(rec_wf(self.tentative_recognitions@[idx as int]@));
                                    lemma_find_rec_at(rqv, coordv, idx as int);
                                }
                                let ghost rq = self.tentative_recognitions@;
                                let prev = match self.tentative_recognitions.remove(idx) {
                                    Some(p) => p,
                                    None => {
                                        proof {
                                            assert(false);
                                        }
                                        continue ;
                                    },
                                };
                                let ghost pv = prev@;
                                overwrites = prev.overwrites;
                                overwrites.push(prev.ink);
                                proof {
                                    assert forall|t: int|
                                        0 <= t < self.tentative_recognitions@.len() implies rec_wf(
                                        (#[trigger] self.tentative_recognitions@[t])@,
                                    ) by {
                                        if t < idx {
                                            assert(self.tentative_recognitions@[t] == rq[t]);
                                            assert(rec_wf(rq[t]@));
                                        } else {
                                            assert(self.tentative_recognitions@[t] == rq[t + 1]);
                                            assert(rec_wf(rq[t + 1]@));
                                        }
                                    }
                                    assert forall|t: int|
                                        0 <= t < overwrites@.len() implies ink_wf(
                                        (#[trigger] overwrites@[t])@,
                                    ) by {
                                        if t < overwrites@.len() - 1 {
                                            assert(overwrites@[t]@ == pv.overwrites[t]);
                                            assert(ink_wf(pv.overwrites[t]));
                                        } else {
                                            assert(overwrites@[t]@ == pv.ink);
                                        }
                                    }
                                    assert(self.tentative_recognitions@.map_values(
                                        |r: Recognition| r@,
                                    ) =~= rqv.remove(idx as int)) by {
                                        assert forall|t: int|
                                            0 <= t < self.tentative_recognitions@.len() implies
                                            self.tentative_recognitions@.map_values(
                                            |r: Recognition| r@,
                                        )[t] == rqv.remove(idx as int)[t] by {
                                            if t < idx {
                                                assert(self.tentative_recognitions@[t] == rq[t]);
                                            } else {
                                                assert(self.tentative_recognitions@[t] == rq[t
                                                    + 1]);
                                            }
                                        }
                                    }
                                    assert(overwrites@.map_values(|o: Ink| o@)
                                        =~= rqv[idx as int].overwrites.push(rqv[idx as int].ink));
                                    assert(pulled.0 == rqv.remove(idx as int));
                                    assert(pulled.1 == rqv[idx as int].overwrites.push(
                                        rqv[idx as int].ink,
                                    ));
                                }
                            } else {
                                proof {
                                    lemma_find_rec_absent(rqv, coordv);
                                    assert(overwrites@.map_values(|o: Ink| o@)
                                        =~= Seq::<Seq<StrokeView>>::empty());
                                }
                            }
                            proof {
                                assert(self.st() =~~= (WinState { recs: pulled.0, ..w_cur }));
                            }
                            let ghost w_pull = self.st();
                            let recon = Recognition {
                                coord,
                                ink,
                                recognized_as: c,
                                overwrites,
                            };
                            let ghost reconv = recon@;
                            proof {
                                assert(rec_wf(recon@));
                                assert(reconv =~~= (RecognitionView {
                                    coord: coordv,
                                    ink: inkv,
                                    recognized_as: c,
                                    overwrites: pulled.1,
                                }));
                            }
                            self.replace(Replace::write(coord, c));
                            let ghost w1 = self.st();
                            proof {
                                assert(w1 == replace_tr(
                                    w_pull,
                                    fuv,
                                    coordv,
                                    (coordv.0, coordv.1 + 1),
                                    lines_of(seq![c]),
                                ));
                            }
                            let evicted = rotate_recognitions(
                                &mut self.tentative_recognitions,
                                recon,
                            );
                            proof {
                                assert(self.st() =~~= (WinState {
                                    recs: ring_push(
                                        w1.recs,
                                        reconv,
                                        NUM_RECENT_RECOGNITIONS as int,
                                    ),
                                    ..w1
                                }));
                            }
                            match evicted {
                                Some(r) => {
                                    proof {
                                        assert(rec_wf(r@));
                                        assert(r@ == w1.recs[0]);
                                        assert(w1.recs.len() >= NUM_RECENT_RECOGNITIONS);
                                    }
                                    // the evicted record's overwritten inks
                                    // were never themselves overwritten: let
                                    // the learner consider them
                                    let ghost rv = r@;
                                    let r_char = r.recognized_as;
                                    proof {
                                        assert(r_char == rv.recognized_as);
                                    }
                                    let mut ows = r.overwrites;
                                    let ghost ov = ows@;
                                    proof {
                                        assert forall|t: int|
                                            0 <= t < ov.len() implies ink_wf(
                                            (#[trigger] ov[t])@,
                                        ) by {
                                            assert(ov[t]@ == rv.overwrites[t]);
                                            assert(ink_wf(rv.overwrites[t]));
                                        }
                                        assert(ov.map_values(|o: Ink| o@) =~= rv.overwrites);
                                    }
                                    let ghost ovv = ov.map_values(|o: Ink| o@);
                                    let on = ows.len();
                                    let mut oi: usize = 0;
                                    proof {
                                        assert(ovv.skip(0) =~= ovv);
                                        assert(ov.skip(0) =~= ov);
                                        assert(text_stuff.st() == s_bm);
                                    }
                                    while oi < on
                                        invariant
                                            oi <= on,
                                            on == ov.len(),
                                            ows@ == ov.skip(oi as int),
                                            ovv == ov.map_values(|o: Ink| o@),
                                            r_char == rv.recognized_as,
                                            forall|t: int|
                                                0 <= t < ov.len() ==> ink_wf(
                                                    (#[trigger] ov[t])@,
                                                ),
                                            self.wf(),
                                            text_stuff.wf(),
                                            m0 == old(self).grid_metrics,
                                            self.grid_metrics == old(self).grid_metrics,
                                            fuv == coord_view(old(self).frozen_until),
                                            self.frozen_until == old(self).frozen_until,
                                            self.dimensions == old(self).dimensions,
                                            self.selection == old(self).selection,
                                            self.origin == old(self).origin,
                                            st0 == old(self).st(),
                                            ss0 == old(text_stuff).st(),
                                            head_of(self.buffer@, fuv) == head_of(
                                                old(self).buffer@,
                                                fuv,
                                            ),
                                            self.st() == (WinState {
                                                recs: ring_push(
                                                    w1.recs,
                                                    reconv,
                                                    NUM_RECENT_RECOGNITIONS as int,
                                                ),
                                                ..w1
                                            }),
                                            feed_tr(s_bm, ovv, rv.recognized_as, m0) == feed_tr(
                                                text_stuff.st(),
                                                ovv.skip(oi as int),
                                                rv.recognized_as,
                                                m0,
                                            ),
                                        decreases on - oi,
                                    {
                                        proof {
                                            assert(ov.skip(oi as int)[0] == ov[oi as int]);
                                            assert(ov.skip(oi as int).skip(1) =~= ov.skip(
                                                oi + 1 as int,
                                            ));
                                            assert(ovv.skip(oi as int)[0] == ovv[oi as int]);
                                            assert(ovv.skip(oi as int).skip(1) =~= ovv.skip(
                                                oi + 1 as int,
                                            ));
                                            assert(ovv[oi as int] == ov[oi as int]@);
                                        }
                                        let ghost s_it = text_stuff.st();
                                        let ow = match ows.remove(0) {
                                            o => o,
                                        };
                                        proof {
                                            assert(ow@ == ov[oi as int]@);
                                            assert(ow@ == ovv[oi as int]);
                                        }
                                        if ow.strokes.len() > 0 {
                                            let ghost owv = ow@;
                                            let pts = PointCloud::from_ink_grid(
                                                &ow,
                                                &self.grid_metrics,
                                            );
                                            let ghost ptsv = pts@;
                                            proof {
                                                assert(ptsv == crate::points::grid_cloud_of(
                                                    ovv[oi as int],
                                                    m0.height as int,
                                                    m0.width as int,
                                                    m0.baseline as int,
                                                ));
                                            }
                                            text_stuff.on_overwrite(ow, pts, r_char);
                                            proof {
                                                assert(text_stuff.st()
                                                    == crate::hwr::overwrite_tr(
                                                    s_it,
                                                    owv,
                                                    ptsv,
                                                    r_char,
                                                ).0);
                                                assert(crate::hwr::overwrite_tr(
                                                    s_it,
                                                    ovv[oi as int],
                                                    crate::points::grid_cloud_of(
                                                        ovv[oi as int],
                                                        m0.height as int,
                                                        m0.width as int,
                                                        m0.baseline as int,
                                                    ),
                                                    rv.recognized_as,
                                                ) == crate::hwr::overwrite_tr(
                                                    s_it,
                                                    owv,
                                                    ptsv,
                                                    r_char,
                                                )) by {
                                                    assert(owv == ov[oi as int]@);
                                                    assert(owv == ovv[oi as int]);
                                                    assert(r_char == rv.recognized_as);
                                                }
                                                assert(text_stuff.st()
                                                    == crate::hwr::overwrite_tr(
                                                    s_it,
                                                    ovv[oi as int],
                                                    crate::points::grid_cloud_of(
                                                        ovv[oi as int],
                                                        m0.height as int,
                                                        m0.width as int,
                                                        m0.baseline as int,
                                                    ),
                                                    rv.recognized_as,
                                                ).0);
                                            }
                                        }
                                        oi += 1;
                                    }
                                    proof {
                                        assert(ovv.skip(on as int)
                                            =~= Seq::<Seq<StrokeView>>::empty());
                                    }
                                },
                                None => {
                                    proof {
                                        assert(w1.recs.len() < NUM_RECENT_RECOGNITIONS);
                                    }
                                },
                            }
                        },
                        None => {},
                    }
                    proof {
                        assert((self.st(), text_stuff.st()) =~~= token_tr(
                            w_cur,
                            s_cur,
                            fuv,
                            originv,
                            m0,
                            tvv[i as int].0,
                            tvv[i as int].1,
                        ));
                        assert(glyphs_tr(st0, ss0, fuv, originv, m0, tvv) == glyphs_tr(
                            self.st(),
                            text_stuff.st(),
                            fuv,
                            originv,
                            m0,
                            tvv.skip(i + 1 as int),
                        ));
                    }
                    i += 1;
                }
                proof {
                    assert(tvv.skip(n as int) =~= Seq::<((int, int), Seq<StrokeView>)>::empty());
                }
            },
            InkType::Strikethrough { start, end } => {
                let s = self.relative(start);
                let e = self.relative(end);
                if coord_le(s, e) {
                    self.replace(Replace::remove(s, e));
                }
            },
            InkType::Carat { at, ink } => {
                let coord = self.relative(at);
                self.carat(Carat { coord, ink });
            },
            InkType::LineTo { coord: _ } => {},
            InkType::BigGlyph { token } => {
                let ghost s0 = text_stuff.st();
                let ghost w0 = self.st();
                let ghost b = old(self).buffer@;
                let ghost dims = coord_view(old(self).dimensions);
                let cloud = PointCloud::from_ink_shape(&token);
                let best = text_stuff.big_recognizer.best_match(&cloud, u64::MAX);
                let ghost bm = crate::points::bm_tr(
                    s0.big_t,
                    s0.big_c,
                    crate::points::shape_cloud_of(token@),
                    u64::MAX as int,
                );
                let ghost stuff1 = (crate::hwr::StuffState { big_t: bm.0, big_c: bm.1, ..s0 });
                proof {
                    assert(text_stuff.st() =~~= stuff1);
                }
                let se = match &self.selection {
                    Selection::Normal => None,
                    Selection::Single { carat } => Some((carat.coord, carat.coord)),
                    Selection::Range { start, end } => Some((start.coord, end.coord)),
                };
                let (start, end) = match se {
                    Some(p) => p,
                    None => {
                        return ;
                    },
                };
                let c = match best {
                    Some(c) => c,
                    None => {
                        return ;
                    },
                };
                let distinct = start.0 != end.0 || start.1 != end.1;
                let ordered = coord_le(start, end);
                let ghost startv = coord_view(start);
                let ghost endv = coord_view(end);
                proof {
                    assert((startv, endv) == sel_ends(old(self).selection@));
                    assert(distinct == (startv != endv));
                }
                if c == 'X' {
                    if distinct && ordered {
                        text_stuff.clipboard = Some(self.buffer.copy(start, end));
                        proof {
                            assert(text_stuff.st() =~~= (crate::hwr::StuffState {
                                clipboard: Some(
                                    copy_spec(b, clamp_spec(b, startv), clamp_spec(b, endv)),
                                ),
                                ..stuff1
                            }));
                        }
                        self.replace(Replace::remove(start, end));
                        self.selection = Selection::Normal;
                    }
                } else if c == 'C' {
                    if distinct && ordered {
                        text_stuff.clipboard = Some(self.buffer.copy(start, end));
                        proof {
                            assert(text_stuff.st() =~~= (crate::hwr::StuffState {
                                clipboard: Some(
                                    copy_spec(b, clamp_spec(b, startv), clamp_spec(b, endv)),
                                ),
                                ..stuff1
                            }));
                        }
                        self.selection = Selection::Normal;
                    }
                } else if c == 'V' {
                    if ordered {
                        let pasted = match &text_stuff.clipboard {
                            Some(b) => Some(b.duplicate()),
                            None => None,
                        };
                        match pasted {
                            Some(content) => {
                                self.replace(
                                    Replace { from: start, until: end, content },
                                );
                            },
                            None => {},
                        }
                    }
                    self.selection = Selection::Normal;
                } else if c == 'S' || c == '>' {
                    if ordered {
                        let pad = TextBuffer::padding(diff_coord(start, end));
                        self.replace(Replace::splice(start, pad));
                    }
                    self.selection = Selection::Normal;
                } else if c == '<' {
                    if ordered {
                        self.replace(Replace::remove(start, end));
                    }
                    self.selection = Selection::Normal;
                } else if c == 'Q' {
                    let line_start = (start.0, 0);
                    let end2 = if !distinct {
                        self.buffer.clamp((end.0, usize::MAX))
                    } else {
                        end
                    };
                    let width0 = self.dimensions.1;
                    let rem_w = if start.1 < width0 {
                        width0 - start.1
                    } else {
                        1
                    };
                    if coord_le(line_start, start) && coord_le(start, end2) {
                        let prefix_buf = self.buffer.copy(line_start, start);
                        let prefix_str = prefix_buf.content_string();
                        let prefix_chars = crate::wrap::str_chars(prefix_str.as_str());
                        let remainder_buf = self.buffer.copy(start, end2);
                        let rem_str = remainder_buf.content_string();
                        let rem_chars = crate::wrap::str_chars(rem_str.as_str());
                        proof {
                            assert(prefix_chars@ == content_of(
                                copy_spec(
                                    b,
                                    clamp_spec(b, (startv.0, 0int)),
                                    clamp_spec(b, startv),
                                ),
                            ));
                            assert(rem_chars@ == content_of(
                                copy_spec(b, clamp_spec(b, startv), clamp_spec(b, coord_view(end2))),
                            ));
                        }
                        let wrapped = crate::wrap::reflow(&rem_chars, &prefix_chars, rem_w);
                        let wrapped_str = crate::text_buffer::string_from_chars(&wrapped);
                        let content = TextBuffer::from_string(wrapped_str.as_str());
                        self.replace(Replace { from: start, until: end2, content });
                    }
                    self.selection = Selection::Normal;
                } else if c == 'N' {
                    if distinct && start.0 == end.0 && ordered {
                        self.find_token(start, end, true);
                    }
                } else if c == 'P' {
                    if distinct && start.0 == end.0 && ordered {
                        self.find_token(start, end, false);
                    }
                }
            },
        }
    }
}

} // verus!
