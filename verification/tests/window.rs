use sill::geom::{Ink, Metrics, Sample, Stroke};
use sill::hwr::TextStuff;
use sill::ink_type::InkType;
use sill::text_buffer::{Replace, TextBuffer};
use sill::text_window::{Selection, TextWindow};

fn stroke(points: Vec<(i32, i32)>, t0: i64, t1: i64) -> Stroke {
    Stroke {
        points: points
            .into_iter()
            .map(|(x, y)| Sample { x, y, pressure: 0 })
            .collect(),
        t_min: t0,
        t_max: t1,
    }
}

fn window(text: &str) -> TextWindow {
    TextWindow::new(
        TextBuffer::from_string(text),
        Metrics::new(40),
        (10, 10),
    )
}

#[test]
fn frozen_region_drops_inner_edit() {
    let mut w = window("waistcoat");
    w.frozen_until = (0, 5);
    let _ = w.do_replace(Replace::remove((0, 0), (0, 3)));
    assert_eq!(w.buffer.content_string().as_str(), "waistcoat");
}

#[test]
fn insertion_at_frozen_boundary_appends() {
    let mut w = window("sent");
    w.frozen_until = (0, 4);
    w.replace(Replace::splice((0, 4), TextBuffer::from_string("!")));
    assert_eq!(w.buffer.content_string().as_str(), "sent!");
    w.undo();
    assert_eq!(w.buffer.content_string().as_str(), "sent");
    w.redo();
    assert_eq!(w.buffer.content_string().as_str(), "sent!");
}

#[test]
fn undo_scrolls_edit_into_view() {
    let mut w = window("line");
    w.origin = (30, 0);
    w.replace(Replace::write((0, 0), 'x'));
    w.undo();
    // the undone edit's location is scrolled into the 10-row viewport
    assert!(w.origin.0 <= 0);
}

#[test]
fn cell_descriptor_reports_characters_and_terminators() {
    let w = window("ab\ncd");
    let d = w.cell_desc((0, 0));
    assert_eq!(d.character, Some(('a', 230)));
    assert!(!d.underline);
    assert!(d.draw_guidelines);
    let eol = w.cell_desc((0, 2));
    assert_eq!(eol.character, Some(('\u{23CE}', 80)));
    let eob = w.cell_desc((1, 2));
    assert_eq!(eob.character, Some(('\u{2327}', 80)));
    assert!(matches!(w.mode(), sill::text_window::InkMode::Normal));
}

#[test]
fn frozen_region_clips_straddling_edit() {
    let mut w = window("waistcoat");
    w.frozen_until = (0, 5);
    let _ = w.do_replace(Replace::remove((0, 3), (0, 7)));
    assert_eq!(w.buffer.content_string().as_str(), "waistat");
}

#[test]
fn undo_ring_caps_at_sixty_four() {
    let mut w = window("a");
    for _ in 0..70 {
        let end = w.buffer.end();
        w.replace(Replace::splice(end, TextBuffer::from_string("x")));
    }
    assert_eq!(w.undos.len(), 64);
    for _ in 0..70 {
        w.undo();
    }
    // only the 64 most recent edits can be taken back
    assert_eq!(w.buffer.content_string().as_str(), "axxxxxx");
}

#[test]
fn redo_restores_undone_edit() {
    let mut w = window("ab");
    w.replace(Replace::splice((0, 1), TextBuffer::from_string("X")));
    assert_eq!(w.buffer.content_string().as_str(), "aXb");
    w.undo();
    assert_eq!(w.buffer.content_string().as_str(), "ab");
    w.redo();
    assert_eq!(w.buffer.content_string().as_str(), "aXb");
}

#[test]
fn erase_blanks_a_row_run() {
    // a stroke across grid columns 2 to 4 of row 1 blanks exactly those
    // three cells, leaving the row's length unchanged
    let mut w = window("xxxxxxxx\nabcdefgh");
    let ink = Ink {
        strokes: vec![stroke(vec![(50, 60), (90, 60)], 0, 1)],
    };
    w.erase(&ink);
    assert_eq!(w.buffer.content_string().as_str(), "xxxxxxxx\nab   fgh");
}

#[test]
fn scratch_blanks_one_cell() {
    let mut w = window("abcd");
    let mut stuff = TextStuff::new();
    w.ink_row(InkType::Scratch { at: (0, 1) }, &mut stuff);
    assert_eq!(w.buffer.content_string().as_str(), "a cd");
}

#[test]
fn strikethrough_removes_span() {
    let mut w = window("abcdef");
    let mut stuff = TextStuff::new();
    w.ink_row(
        InkType::Strikethrough {
            start: (0, 1),
            end: (0, 4),
        },
        &mut stuff,
    );
    assert_eq!(w.buffer.content_string().as_str(), "aef");
}

#[test]
fn carat_gestures_advance_selection() {
    let mut w = window("abcdef");
    let mut stuff = TextStuff::new();
    let ink = Ink { strokes: vec![] };
    w.ink_row(
        InkType::Carat {
            at: (0, 4),
            ink,
        },
        &mut stuff,
    );
    assert!(matches!(w.selection, Selection::Single { .. }));
    let ink2 = Ink { strokes: vec![] };
    w.ink_row(
        InkType::Carat {
            at: (0, 1),
            ink: ink2,
        },
        &mut stuff,
    );
    match &w.selection {
        Selection::Range { start, end } => {
            assert_eq!(start.coord, (0, 1));
            assert_eq!(end.coord, (0, 4));
        }
        _ => panic!("expected a range selection"),
    }
}
