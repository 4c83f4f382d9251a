use sill::text_buffer::{Replace, TextBuffer};

#[test]
fn test_replace_newline() {
    let mut waistcoat = TextBuffer::from_string("waistcoat");
    let newline = TextBuffer::from_string("\n");
    let insert = Replace::splice((0, 5), newline);
    let undo = waistcoat.replace(insert);
    assert_eq!(waistcoat.content_string().as_str(), "waist\ncoat");
    assert_eq!(undo.content.content_string().as_str(), "");
}

#[test]
fn test_copy() {
    // a column past the first row's end clamps to the start of the next row,
    // so the copied span is empty
    let waistcoat = TextBuffer::from_string("waistcoat\n");
    assert_eq!(
        "",
        waistcoat
            .copy((0, 20), waistcoat.end())
            .content_string()
            .as_str()
    );
}

#[test]
fn clamp_rolls_forward_to_next_row() {
    let b = TextBuffer::from_string("ab\ncd");
    assert_eq!(b.clamp((0, 9)), (1, 0));
    assert_eq!(b.clamp((1, 9)), (1, 2));
    assert_eq!(b.clamp((5, 0)), (1, 2));
    assert_eq!(b.clamp((0, 2)), (0, 2));
}

#[test]
fn replace_roundtrip_across_forward_clamp() {
    let mut b = TextBuffer::from_string("ab\ncd");
    let edit = Replace {
        from: (0, 9),
        until: (1, 1),
        content: TextBuffer::from_string("X"),
    };
    let inv = b.replace(edit);
    assert_eq!(b.content_string().as_str(), "ab\nXd");
    b.replace(inv);
    assert_eq!(b.content_string().as_str(), "ab\ncd");
}

#[test]
fn split_then_append_restores() {
    let mut b = TextBuffer::from_string("one\ntwo\nthree");
    let tail = b.split_off((1, 2));
    assert_eq!(b.content_string().as_str(), "one\ntw");
    b.append(tail);
    assert_eq!(b.content_string().as_str(), "one\ntwo\nthree");
}

#[test]
fn replace_then_inverse_restores() {
    let mut b = TextBuffer::from_string("alpha\nbeta\ngamma");
    let edit = Replace {
        from: (0, 2),
        until: (2, 1),
        content: TextBuffer::from_string("X\nY"),
    };
    let inv = b.replace(edit);
    assert_eq!(b.content_string().as_str(), "alX\nYamma");
    let _inv2 = b.replace(inv);
    assert_eq!(b.content_string().as_str(), "alpha\nbeta\ngamma");
}

#[test]
fn write_and_padding() {
    let mut b = TextBuffer::empty();
    let undo = b.replace(Replace::write((1, 2), 'z'));
    assert_eq!(b.content_string().as_str(), "\n  z");
    assert_eq!(undo.from, (0, 0));
}
