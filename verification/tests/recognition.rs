use sill::config::Config;
use sill::geom::{Ink, Metrics, Sample, Stroke};
use sill::hwr::{Candidate, CharTemplates, TemplateFile, TextStuff};
use sill::ink_type::InkType;
use sill::points::PointCloud;
use sill::text_window::Selection;

fn stroke(points: Vec<(i32, i32)>, t0: i64, t1: i64) -> Stroke {
    Stroke {
        points: points
            .into_iter()
            .map(|(x, y)| Sample { x, y, pressure: 0 })
            .collect(),
        t_min: t0,
        t_max: t1,
    }
}

fn one_stroke_ink(points: Vec<(i32, i32)>) -> Ink {
    Ink {
        strokes: vec![stroke(points, 0, 1)],
    }
}

#[test]
fn classify_wide_flat_stroke_as_strikethrough() {
    // bounding box two cells wide, one stroke, length/width ratio 1.0
    let metrics = Metrics::new(40);
    assert_eq!(metrics.width, 20);
    let ink = one_stroke_ink(vec![(2, 20), (42, 20)]);
    let got = InkType::classify(&metrics, ink, &Selection::Normal);
    match got {
        Some(InkType::Strikethrough { start, end }) => {
            assert_eq!(start, (0, 0));
            assert_eq!(end, (0, 2));
        }
        _ => panic!("expected a strikethrough"),
    }
}

#[test]
fn classify_is_deterministic() {
    let metrics = Metrics::new(40);
    let a = InkType::classify(
        &metrics,
        one_stroke_ink(vec![(2, 20), (42, 20)]),
        &Selection::Normal,
    );
    let b = InkType::classify(
        &metrics,
        one_stroke_ink(vec![(2, 20), (42, 20)]),
        &Selection::Normal,
    );
    match (a, b) {
        (
            Some(InkType::Strikethrough { start: s1, end: e1 }),
            Some(InkType::Strikethrough { start: s2, end: e2 }),
        ) => {
            assert_eq!(s1, s2);
            assert_eq!(e1, e2);
        }
        _ => panic!("expected matching strikethroughs"),
    }
}

#[test]
fn tokenize_partitions_strokes_by_column() {
    let metrics = Metrics::new(40);
    // one unambiguous stroke in column 0 and one in column 2
    let ink = Ink {
        strokes: vec![
            stroke(vec![(5, 5), (10, 30)], 0, 1),
            stroke(vec![(45, 5), (50, 30)], 2, 3),
        ],
    };
    let tokens = Ink::tokenize(&metrics, &ink);
    assert_eq!(tokens.len(), 2);
    assert_eq!(tokens[0].0, 0);
    assert_eq!(tokens[1].0, 2);
    let total: usize = tokens.iter().map(|t| t.1.strokes.len()).sum();
    assert_eq!(total, ink.strokes.len());
    // shifting the second token back by its column offset recovers the
    // original stroke exactly
    let shifted = &tokens[1].1.strokes[0];
    assert_eq!(shifted.points[0].x + 2 * metrics.width, 45);
    assert_eq!(shifted.points[0].y, 5);
}

#[test]
fn lone_ambiguous_stroke_takes_rounded_center() {
    // a stroke centered on a column boundary with no unambiguous neighbours
    // goes to the rounded center
    let metrics = Metrics::new(40);
    assert_eq!(metrics.width, 20);
    let ink = Ink {
        strokes: vec![stroke(vec![(18, 5), (22, 30)], 0, 1)],
    };
    let tokens = Ink::tokenize(&metrics, &ink);
    assert_eq!(tokens.len(), 1);
    assert_eq!(tokens[0].0, 1);
}

#[test]
fn on_overwrite_demotes_mismatched_candidate() {
    // the old best match is 'a'; a candidate stored under 'b' is closer to
    // the query, but the correction is 'c', so the candidate is discarded
    let metrics = Metrics::new(40);
    let template_a = one_stroke_ink(vec![(0, 0), (19, 39)]);
    let query_ink = one_stroke_ink(vec![(0, 39), (19, 0)]);
    let cand_ink = one_stroke_ink(vec![(0, 39), (19, 0)]);
    let mut stuff = TextStuff::new();
    stuff.char_recognizer = sill::points::CharRecognizer::new(vec![(
        PointCloud::from_ink_grid(&template_a, &metrics),
        'a',
    )]);
    stuff.candidate_templates.push_back(Candidate {
        points: PointCloud::from_ink_grid(&cand_ink, &metrics),
        ink: cand_ink,
        ch: 'b',
    });
    let query = PointCloud::from_ink_grid(&query_ink, &metrics);
    let evicted = stuff.on_overwrite(query_ink, query, 'c');
    assert!(evicted.is_none());
    assert_eq!(stuff.candidate_templates.len(), 0);
    assert!(stuff.templates.is_empty());
}

#[test]
fn on_overwrite_promotes_matching_candidate() {
    let metrics = Metrics::new(40);
    let template_a = one_stroke_ink(vec![(0, 0), (19, 39)]);
    let query_ink = one_stroke_ink(vec![(0, 39), (19, 0)]);
    let cand_ink = one_stroke_ink(vec![(0, 39), (19, 0)]);
    let mut stuff = TextStuff::new();
    stuff.templates.push(CharTemplates {
        ch: 'b',
        templates: vec![],
    });
    stuff.char_recognizer = sill::points::CharRecognizer::new(vec![(
        PointCloud::from_ink_grid(&template_a, &metrics),
        'a',
    )]);
    stuff.candidate_templates.push_back(Candidate {
        points: PointCloud::from_ink_grid(&cand_ink, &metrics),
        ink: cand_ink,
        ch: 'b',
    });
    let query = PointCloud::from_ink_grid(&query_ink, &metrics);
    let _ = stuff.on_overwrite(query_ink, query, 'b');
    assert_eq!(stuff.candidate_templates.len(), 0);
    assert_eq!(stuff.templates[0].templates.len(), 1);
}

#[test]
fn load_from_file_builds_working_set() {
    let metrics = Metrics::new(40);
    let config = Config {
        cell_height: 40,
        extra_chars: vec![String::from("U+00E9")],
    };
    let file = TemplateFile {
        template_height: 40,
        templates: vec![('A', vec![one_stroke_ink(vec![(0, 0), (10, 30)])])],
        candidate_templates: vec![],
    };
    let mut stuff = TextStuff::new();
    stuff.load_from_file(file, &metrics, &config);
    // the working set starts with the digits and ends with the configured
    // extra character
    assert_eq!(stuff.templates[0].ch, '0');
    assert!(stuff.templates.iter().any(|t| t.ch == '\u{e9}'));
    let a = stuff.templates.iter().find(|t| t.ch == 'A').unwrap();
    assert_eq!(a.templates.len(), 1);
    // the rebuilt recognizer knows exactly the surviving templates
    assert_eq!(stuff.char_recognizer.chars, vec!['A']);
}

#[test]
fn extra_chars_parses_literals_and_codepoints() {
    let config = Config {
        cell_height: 40,
        extra_chars: vec![
            String::from("U+0041"),
            String::from("z"),
            String::from("nope"),
            String::from("U+xyz"),
        ],
    };
    assert_eq!(config.extra_chars(), vec!['A', 'z']);
}

#[test]
fn best_match_moves_winner_to_front() {
    let metrics = Metrics::new(40);
    let t1 = one_stroke_ink(vec![(0, 0), (19, 39)]);
    let t2 = one_stroke_ink(vec![(0, 39), (19, 0)]);
    let mut rec = sill::points::CharRecognizer::new(vec![
        (PointCloud::from_ink_grid(&t1, &metrics), 'a'),
        (PointCloud::from_ink_grid(&t2, &metrics), 'b'),
    ]);
    let query = PointCloud::from_ink_grid(&t2, &metrics);
    let got = rec.best_match(&query, u64::MAX);
    assert_eq!(got, Some('b'));
    assert_eq!(rec.chars[0], 'b');
}
