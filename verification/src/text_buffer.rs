//! A two-dimensional character grid addressed by (row, column) coordinates,
//! with a reversible span-replacement primitive.

use vstd::prelude::*;

verus! {

/// A position in the grid: (row, column). The column may equal the row's
/// length, which addresses the line terminator position.
pub type Coord = (usize, usize);

pub open spec fn coord_le_spec(a: (int, int), b: (int, int)) -> bool {
    a.0 < b.0 || (a.0 == b.0 && a.1 <= b.1)
}

pub open spec fn coord_lt_spec(a: (int, int), b: (int, int)) -> bool {
    a.0 < b.0 || (a.0 == b.0 && a.1 < b.1)
}

pub open spec fn coord_view(c: Coord) -> (int, int) {
    (c.0 as int, c.1 as int)
}

/// Lexicographic order on coordinates: row first, then column.
pub fn coord_le(a: Coord, b: Coord) -> (r: bool)
    ensures
        r == coord_le_spec(coord_view(a), coord_view(b)),
{
    a.0 < b.0 || (a.0 == b.0 && a.1 <= b.1)
}

/// Strict lexicographic order on coordinates.
pub fn coord_lt(a: Coord, b: Coord) -> (r: bool)
    ensures
        r == coord_lt_spec(coord_view(a), coord_view(b)),
{
    a.0 < b.0 || (a.0 == b.0 && a.1 < b.1)
}

pub open spec fn add_coord_spec(a: (int, int), b: (int, int)) -> (int, int) {
    if b.0 == 0 {
        (a.0, a.1 + b.1)
    } else {
        (a.0 + b.0, b.1)
    }
}

/// Advance coordinate `a` by the relative offset `b`: a zero-row offset moves
/// within the row, otherwise the column restarts at the offset's column.
pub fn add_coord(a: Coord, b: Coord) -> (r: Coord)
    requires
        b.0 == 0 ==> a.1 + b.1 <= usize::MAX,
        a.0 + b.0 <= usize::MAX,
    ensures
        coord_view(r) == add_coord_spec(coord_view(a), coord_view(b)),
{
    if b.0 == 0 {
        (a.0, a.1 + b.1)
    } else {
        (a.0 + b.0, b.1)
    }
}

pub open spec fn diff_coord_spec(a: (int, int), b: (int, int)) -> (int, int) {
    let (lo, hi) = if coord_lt_spec(a, b) {
        (a, b)
    } else {
        (b, a)
    };
    if lo.0 == hi.0 {
        (0, hi.1 - lo.1)
    } else {
        (hi.0 - lo.0, hi.1)
    }
}

/// The relative offset between two coordinates, such that adding the result
/// to the smaller of the two yields the larger.
pub fn diff_coord(a: Coord, b: Coord) -> (r: Coord)
    ensures
        coord_view(r) == diff_coord_spec(coord_view(a), coord_view(b)),
{
    let (lo, hi) = if coord_lt(a, b) {
        (a, b)
    } else {
        (b, a)
    };
    if lo.0 == hi.0 {
        (0, hi.1 - lo.1)
    } else {
        (hi.0 - lo.0, hi.1)
    }
}

/// Adding the offset between two ordered coordinates back to the smaller one
/// recovers the larger one.
pub proof fn lemma_add_diff_coord(a: (int, int), b: (int, int))
    requires
        coord_le_spec(a, b),
    ensures
        add_coord_spec(a, diff_coord_spec(a, b)) == b,
{
}

/// An ordered sequence of rows of characters. Always holds at least one row.
pub struct TextBuffer {
    pub contents: Vec<Vec<char>>,
}

impl View for TextBuffer {
    type V = Seq<Seq<char>>;

    open spec fn view(&self) -> Seq<Seq<char>> {
        self.contents@.map_values(|row: Vec<char>| row@)
    }
}

/// The sole structural invariant of a buffer: at least one row.
pub open spec fn buf_wf(b: Seq<Seq<char>>) -> bool {
    b.len() >= 1
}

/// A coordinate is valid when its row exists and its column is at most the
/// row's length.
pub open spec fn buf_valid(b: Seq<Seq<char>>, c: (int, int)) -> bool {
    0 <= c.0 < b.len() && 0 <= c.1 <= b[c.0].len()
}

/// The nearest valid coordinate: rows past the end clamp to the very last
/// position; a column past a row's end clamps to the start of the next row
/// when one exists, and to the row's end otherwise.
pub open spec fn clamp_spec(b: Seq<Seq<char>>, c: (int, int)) -> (int, int)
    recommends
        buf_wf(b),
        c.0 >= 0,
        c.1 >= 0,
{
    if c.0 >= b.len() {
        (b.len() - 1, b[b.len() - 1].len() as int)
    } else if c.1 <= b[c.0].len() {
        (c.0, c.1)
    } else if c.0 + 1 < b.len() {
        (c.0 + 1, 0)
    } else {
        (c.0, b[c.0].len() as int)
    }
}

pub proof fn lemma_clamp_valid(b: Seq<Seq<char>>, c: (int, int))
    requires
        buf_wf(b),
        c.0 >= 0,
        c.1 >= 0,
    ensures
        buf_valid(b, clamp_spec(b, c)),
{
}

/// Clamping an already-valid coordinate changes nothing.
pub proof fn lemma_clamp_of_valid(b: Seq<Seq<char>>, c: (int, int))
    requires
        buf_wf(b),
        buf_valid(b, c),
    ensures
        clamp_spec(b, c) == c,
{
}

/// Clamping preserves the lexicographic order of coordinates.
pub proof fn lemma_clamp_monotone(b: Seq<Seq<char>>, c: (int, int), d: (int, int))
    requires
        buf_wf(b),
        c.0 >= 0,
        c.1 >= 0,
        d.0 >= 0,
        d.1 >= 0,
        coord_le_spec(c, d),
    ensures
        coord_le_spec(clamp_spec(b, c), clamp_spec(b, d)),
{
}

/// The buffer holding everything up to (and excluding) a valid coordinate.
pub open spec fn head_of(b: Seq<Seq<char>>, c: (int, int)) -> Seq<Seq<char>>
    recommends
        buf_valid(b, c),
{
    b.take(c.0).push(b[c.0].take(c.1))
}

/// The buffer holding everything from a valid coordinate onward.
pub open spec fn tail_of(b: Seq<Seq<char>>, c: (int, int)) -> Seq<Seq<char>>
    recommends
        buf_valid(b, c),
{
    seq![b[c.0].skip(c.1)] + b.skip(c.0 + 1)
}

/// A read-only excerpt spanning the (valid, ordered) coordinates `f` to `u`:
/// first and last rows sliced, middle rows whole.
pub open spec fn copy_spec(b: Seq<Seq<char>>, f: (int, int), u: (int, int)) -> Seq<Seq<char>>
    recommends
        buf_valid(b, f),
        buf_valid(b, u),
        coord_le_spec(f, u),
{
    if f.0 == u.0 {
        seq![b[f.0].subrange(f.1, u.1)]
    } else {
        seq![b[f.0].skip(f.1)] + b.subrange(f.0 + 1, u.0) + seq![b[u.0].take(u.1)]
    }
}

/// Concatenation of two buffers, joining the adjoining rows into one.
pub open spec fn append_spec(a: Seq<Seq<char>>, d: Seq<Seq<char>>) -> Seq<Seq<char>>
    recommends
        buf_wf(a),
        buf_wf(d),
{
    a.take(a.len() - 1).push(a.last() + d.first()) + d.skip(1)
}

/// The coordinate just past the last character.
pub open spec fn end_spec(b: Seq<Seq<char>>) -> (int, int)
    recommends
        buf_wf(b),
{
    (b.len() - 1, b.last().len() as int)
}

/// The result of applying a span replacement: the new buffer, the (possibly
/// adjusted) start of the edit, the end of the inserted content, and the
/// removed content. The last three fields describe the inverse Replace.
pub open spec fn replace_spec(
    b: Seq<Seq<char>>,
    from: (int, int),
    until: (int, int),
    content: Seq<Seq<char>>,
) -> (Seq<Seq<char>>, (int, int), (int, int), Seq<Seq<char>>)
    recommends
        buf_wf(b),
        buf_wf(content),
        from.0 >= 0,
        from.1 >= 0,
        coord_le_spec(from, until),
{
    let cf = clamp_spec(b, from);
    let afrom = if coord_lt_spec(cf, from) {
        cf
    } else {
        from
    };
    let acontent = if coord_lt_spec(cf, from) {
        append_spec(pad_of(diff_coord_spec(cf, from)), content)
    } else {
        content
    };
    let cu = clamp_spec(b, until);
    let head1 = head_of(b, cu);
    let trailer = tail_of(b, cu);
    let cf2 = clamp_spec(head1, afrom);
    let head2 = head_of(head1, cf2);
    let removed = tail_of(head1, cf2);
    let inserted = append_spec(head2, acontent);
    (append_spec(inserted, trailer), afrom, end_spec(inserted), removed)
}

pub open spec fn pad_of(c: (int, int)) -> Seq<Seq<char>> {
    padding_spec(c.0, c.1)
}

/// A buffer of `r` empty rows followed by one row of `c` blanks.
pub open spec fn padding_spec(r: int, c: int) -> Seq<Seq<char>>
    recommends
        r >= 0,
        c >= 0,
{
    Seq::new(r as nat, |i: int| Seq::<char>::empty()).push(Seq::new(c as nat, |i: int| ' '))
}

impl TextBuffer {
    pub open spec fn wf(&self) -> bool {
        buf_wf(self@)
    }

    /// A buffer holding a single empty row.
    pub fn empty() -> (b: TextBuffer)
        ensures
            b@ =~= seq![Seq::<char>::empty()],
            b.wf(),
    {
        let mut contents: Vec<Vec<char>> = Vec::new();
        contents.push(Vec::new());
        TextBuffer { contents }
    }

    /// A buffer of blank space reaching up to the given coordinate.
    pub fn padding(coord: Coord) -> (b: TextBuffer)
        ensures
            b@ =~= padding_spec(coord.0 as int, coord.1 as int),
            b.wf(),
    {
        let mut contents: Vec<Vec<char>> = Vec::new();
        let mut i: usize = 0;
        while i < coord.0
            invariant
                i <= coord.0,
                contents@.len() == i,
                forall|j: int| 0 <= j < i ==> #[trigger] contents@[j]@ == Seq::<char>::empty(),
            decreases coord.0 - i,
        {
            contents.push(Vec::new());
            i += 1;
        }
        let blanks: Vec<char> = vec![' '; coord.1];
        contents.push(blanks);
        proof {
            let v = contents@.map_values(|row: Vec<char>| row@);
            let p = padding_spec(coord.0 as int, coord.1 as int);
            assert forall|j: int| 0 <= j < v.len() implies v[j] == p[j] by {
                if j < coord.0 {
                    assert(contents@[j]@ == Seq::<char>::empty());
                } else {
                    assert(contents@[j]@ =~= Seq::new(coord.1 as nat, |i: int| ' '));
                }
            }
            assert(v =~= p);
        }
        TextBuffer { contents }
    }

    /// An identical copy of this buffer.
    pub fn duplicate(&self) -> (b: TextBuffer)
        ensures
            b@ == self@,
    {
        let mut contents: Vec<Vec<char>> = Vec::new();
        let mut i: usize = 0;
        while i < self.contents.len()
            invariant
                i <= self.contents.len(),
                contents@.len() == i,
                forall|j: int| 0 <= j < i ==> #[trigger] contents@[j]@ == self@[j],
            decreases self.contents.len() - i,
        {
            let row: Vec<char> = self.contents[i].clone();
            assert(row@ =~= self.contents@[i as int]@);
            contents.push(row);
            i += 1;
        }
        proof {
            let v = contents@.map_values(|row: Vec<char>| row@);
            assert forall|j: int| 0 <= j < v.len() implies v[j] == self@[j] by {
                assert(contents@[j]@ == self@[j]);
            }
            assert(v =~= self@);
        }
        TextBuffer { contents }
    }

    /// Given a coordinate, find the nearest valid coordinate in the text.
    /// Rows past the end clamp to the last valid coordinate; a column past a
    /// line's end moves to the start of the next line when one exists, and
    /// clamps to the line's end otherwise.
    pub fn clamp(&self, coords: Coord) -> (r: Coord)
        requires
            self.wf(),
        ensures
            coord_view(r) == clamp_spec(self@, coord_view(coords)),
            buf_valid(self@, coord_view(r)),
    {
        let (row, col) = coords;
        let rows = self.contents.len();
        if row >= rows {
            let row = rows - 1;
            (row, self.contents[row].len())
        } else {
            let cols = self.contents[row].len();
            if col <= cols {
                (row, col)
            } else if row + 1 < rows {
                (row + 1, 0)
            } else {
                (row, cols)
            }
        }
    }

    /// The coordinate just past the last character.
    pub fn end(&self) -> (r: Coord)
        requires
            self.wf(),
        ensures
            coord_view(r) == end_spec(self@),
    {
        let row = self.contents.len() - 1;
        (row, self.contents[row].len())
    }

    /// Split the buffer at the clamped coordinate: everything from that point
    /// onward is returned as a new buffer, and this buffer keeps the rest.
    pub fn split_off(&mut self, at: Coord) -> (t: TextBuffer)
        requires
            old(self).wf(),
        ensures
            final(self)@ == head_of(old(self)@, clamp_spec(old(self)@, coord_view(at))),
            t@ == tail_of(old(self)@, clamp_spec(old(self)@, coord_view(at))),
            final(self).wf(),
            t.wf(),
    {
        let ghost b0 = self@;
        let (row, col) = self.clamp(at);
        let n = self.contents.len();
        let mut rest: Vec<Vec<char>> = Vec::new();
        let mut i: usize = row + 1;
        while i < n
            invariant
                row + 1 <= i <= n,
                n == self.contents.len(),
                self@ == b0,
                rest@.len() == i - row - 1,
                forall|j: int| 0 <= j < i - row - 1 ==> #[trigger] rest@[j]@ == b0[row + 1 + j],
            decreases n - i,
        {
            let r: Vec<char> = self.contents[i].clone();
            assert(r@ =~= self.contents@[i as int]@);
            rest.push(r);
            i += 1;
        }
        self.contents.truncate(row + 1);
        let mut last = match self.contents.pop() {
            Some(v) => v,
            None => Vec::new(),
        };
        assert(last@ == b0[row as int]);
        let tail_first = last.split_off(col);
        self.contents.push(last);
        let mut result: Vec<Vec<char>> = Vec::new();
        result.push(tail_first);
        result.append(&mut rest);
        proof {
            let c = (row as int, col as int);
            let h = head_of(b0, c);
            let v = self@;
            assert forall|j: int| 0 <= j < v.len() implies v[j] == h[j] by {
                if j < row {
                    assert(self.contents@[j]@ == b0[j]);
                }
            }
            assert(v =~= h);
            let t0 = tail_of(b0, c);
            let w = result@.map_values(|r2: Vec<char>| r2@);
            assert forall|j: int| 0 <= j < w.len() implies w[j] == t0[j] by {
                if j >= 1 {
                    assert(result@[j]@ == b0[row + j]);
                }
            }
            assert(w =~= t0);
        }
        TextBuffer { contents: result }
    }

    /// Merge another buffer onto the end of this one, joining the two
    /// adjoining rows into one.
    pub fn append(&mut self, buffer: TextBuffer)
        requires
            old(self).wf(),
            buffer.wf(),
        ensures
            final(self)@ == append_spec(old(self)@, buffer@),
            final(self).wf(),
    {
        let ghost a0 = self@;
        let ghost d0 = buffer@;
        let mut rows = buffer.contents;
        let mut first = rows.remove(0);
        let mut last = match self.contents.pop() {
            Some(v) => v,
            None => Vec::new(),
        };
        last.append(&mut first);
        self.contents.push(last);
        self.contents.append(&mut rows);
        proof {
            let e = append_spec(a0, d0);
            let v = self@;
            assert forall|j: int| 0 <= j < v.len() implies v[j] == e[j] by {
                if j < a0.len() - 1 {
                    assert(self.contents@[j]@ == a0[j]);
                } else if j == a0.len() - 1 {
                    assert(self.contents@[j]@ == a0.last() + d0.first());
                } else {
                    assert(self.contents@[j]@ == d0[j - a0.len() + 1]);
                }
            }
            assert(v =~= e);
        }
    }

    /// A read-only excerpt spanning one or more rows.
    pub fn copy(&self, from: Coord, until: Coord) -> (b: TextBuffer)
        requires
            self.wf(),
            coord_le_spec(coord_view(from), coord_view(until)),
        ensures
            b@ == copy_spec(
                self@,
                clamp_spec(self@, coord_view(from)),
                clamp_spec(self@, coord_view(until)),
            ),
            b.wf(),
    {
        proof {
            lemma_clamp_monotone(self@, coord_view(from), coord_view(until));
        }
        let (from_row, from_col) = self.clamp(from);
        let (until_row, until_col) = self.clamp(until);
        let mut contents: Vec<Vec<char>> = Vec::new();
        if from_row == until_row {
            let mut piece: Vec<char> = Vec::new();
            let mut i: usize = from_col;
            while i < until_col
                invariant
                    from_col <= i <= until_col,
                    self.wf(),
                    from_row < self@.len(),
                    until_col <= self@[from_row as int].len(),
                    piece@ == self@[from_row as int].subrange(from_col as int, i as int),
                decreases until_col - i,
            {
                piece.push(self.contents[from_row][i]);
                proof {
                    assert(piece@ =~= self@[from_row as int].subrange(
                        from_col as int,
                        i + 1 as int,
                    ));
                }
                i += 1;
            }
            contents.push(piece);
            proof {
                let c = copy_spec(
                    self@,
                    clamp_spec(self@, coord_view(from)),
                    clamp_spec(self@, coord_view(until)),
                );
                assert(contents@.map_values(|r2: Vec<char>| r2@) =~= c);
            }
        } else {
            let mut piece: Vec<char> = Vec::new();
            let first_len = self.contents[from_row].len();
            let mut i: usize = from_col;
            while i < first_len
                invariant
                    from_col <= i <= first_len,
                    self.wf(),
                    from_row < self@.len(),
                    first_len == self@[from_row as int].len(),
                    piece@ == self@[from_row as int].subrange(from_col as int, i as int),
                decreases first_len - i,
            {
                piece.push(self.contents[from_row][i]);
                proof {
                    assert(piece@ =~= self@[from_row as int].subrange(
                        from_col as int,
                        i + 1 as int,
                    ));
                }
                i += 1;
            }
            assert(piece@ =~= self@[from_row as int].skip(from_col as int));
            contents.push(piece);
            let mut r: usize = from_row + 1;
            while r < until_row
                invariant
                    from_row + 1 <= r <= until_row,
                    self.wf(),
                    until_row < self@.len(),
                    contents@.len() == r - from_row,
                    contents@[0]@ == self@[from_row as int].skip(from_col as int),
                    forall|j: int|
                        1 <= j < r - from_row ==> #[trigger] contents@[j]@ == self@[from_row + j],
                decreases until_row - r,
            {
                let row: Vec<char> = self.contents[r].clone();
                assert(row@ =~= self.contents@[r as int]@);
                contents.push(row);
                r += 1;
            }
            let mut last: Vec<char> = Vec::new();
            let mut i: usize = 0;
            while i < until_col
                invariant
                    i <= until_col,
                    self.wf(),
                    until_row < self@.len(),
                    until_col <= self@[until_row as int].len(),
                    last@ == self@[until_row as int].subrange(0, i as int),
                decreases until_col - i,
            {
                last.push(self.contents[until_row][i]);
                proof {
                    assert(last@ =~= self@[until_row as int].subrange(0, i + 1 as int));
                }
                i += 1;
            }
            contents.push(last);
            proof {
                let c = copy_spec(
                    self@,
                    clamp_spec(self@, coord_view(from)),
                    clamp_spec(self@, coord_view(until)),
                );
                let v = contents@.map_values(|r2: Vec<char>| r2@);
                assert forall|j: int| 0 <= j < v.len() implies v[j] == c[j] by {
                    assert(v[j] == contents@[j]@);
                    if 1 <= j < until_row - from_row {
                        assert(contents@[j]@ == self@[from_row + j]);
                    }
                }
                assert(v =~= c);
            }
        }
        TextBuffer { contents }
    }

    /// Apply a span replacement and return the inverse Replace: applying the
    /// result undoes this edit.
    pub fn replace(&mut self, replace: Replace) -> (inv: Replace)
        requires
            old(self).wf(),
            replace.wf(),
        ensures
            (final(self)@, coord_view(inv.from), coord_view(inv.until), inv.content@)
                == replace_spec(
                old(self)@,
                coord_view(replace.from),
                coord_view(replace.until),
                replace.content@,
            ),
            final(self).wf(),
            inv.wf(),
            coord_le_spec(coord_view(inv.from), coord_view(inv.until)),
    {
        let Replace { from, until, content } = replace;
        let clamped_from = self.clamp(from);
        let (from, content) = if coord_lt(clamped_from, from) {
            let mut padded = TextBuffer::padding(diff_coord(clamped_from, from));
            padded.append(content);
            (clamped_from, padded)
        } else {
            (from, content)
        };
        let trailer = self.split_off(until);
        let undo_content = self.split_off(from);
        self.append(content);
        let undo_until = self.end();
        self.append(trailer);
        proof {
            let i = (self@.len() - trailer@.len()) as int;
            assert(coord_le_spec(coord_view(from), coord_view(undo_until)));
        }
        Replace { from, until: undo_until, content: undo_content }
    }
}

/// Describes replacing the span `[from, until)` of a buffer with `content`.
pub struct Replace {
    pub from: Coord,
    pub until: Coord,
    pub content: TextBuffer,
}

impl Replace {
    /// A well-formed edit: the span's endpoints are ordered and the content
    /// is a well-formed buffer.
    pub open spec fn wf(&self) -> bool {
        self.content.wf() && coord_le_spec(coord_view(self.from), coord_view(self.until))
    }

    /// Insert `content` at `coord`, replacing nothing.
    pub fn splice(coord: Coord, content: TextBuffer) -> (r: Replace)
        requires
            content.wf(),
        ensures
            coord_view(r.from) == coord_view(coord),
            coord_view(r.until) == coord_view(coord),
            r.content@ == content@,
            r.wf(),
    {
        Replace { from: coord, until: coord, content }
    }

    /// Remove all the contents between the two provided coordinates.
    pub fn remove(from: Coord, until: Coord) -> (r: Replace)
        requires
            coord_le_spec(coord_view(from), coord_view(until)),
        ensures
            coord_view(r.from) == coord_view(from),
            coord_view(r.until) == coord_view(until),
            r.content@ =~= seq![Seq::<char>::empty()],
            r.wf(),
    {
        Replace { from, until, content: TextBuffer::empty() }
    }

    /// Overwrite the single cell at the coordinate with the character.
    pub fn write(coord: Coord, c: char) -> (r: Replace)
        requires
            coord.1 < usize::MAX,
        ensures
            coord_view(r.from) == coord_view(coord),
            coord_view(r.until) == (coord.0 as int, coord.1 + 1),
            r.content@ == lines_of(seq![c]),
            r.wf(),
    {
        let (row, col) = coord;
        let mut contents: Vec<Vec<char>> = Vec::new();
        if c == '\n' {
            contents.push(Vec::new());
            contents.push(Vec::new());
        } else {
            let mut line: Vec<char> = Vec::new();
            line.push(c);
            contents.push(line);
        }
        let content = TextBuffer { contents };
        proof {
            reveal_with_fuel(lines_of, 2);
            assert(seq![c].skip(1) =~= Seq::<char>::empty());
            if c == '\n' {
                assert(content@ =~= lines_of(seq![c]));
            } else {
                assert(content@[0] =~= lines_of(seq![c])[0]);
                assert(content@ =~= lines_of(seq![c]));
            }
        }
        Replace { from: (row, col), until: (row, col + 1), content }
    }
}

/// Clamping moves a coordinate backward, except in the one case where a
/// column past a row's end rolls forward to the start of the next row.
pub proof fn lemma_clamp_cases(b: Seq<Seq<char>>, c: (int, int))
    requires
        buf_wf(b),
        c.0 >= 0,
        c.1 >= 0,
    ensures
        coord_le_spec(clamp_spec(b, c), c) || (clamp_spec(b, c) == ((c.0 + 1, 0int)) && c.0 + 1
            < b.len() && c.1 > b[c.0].len()),
        !coord_le_spec(clamp_spec(b, c), c) ==> !coord_lt_spec(clamp_spec(b, c), c),
{
}

/// Splitting a buffer at any coordinate and appending the two parts back
/// together restores the original buffer exactly.
pub proof fn lemma_split_append(b: Seq<Seq<char>>, c: (int, int))
    requires
        buf_wf(b),
        c.0 >= 0,
        c.1 >= 0,
    ensures
        append_spec(head_of(b, clamp_spec(b, c)), tail_of(b, clamp_spec(b, c))) == b,
{
    let cc = clamp_spec(b, c);
    lemma_clamp_valid(b, c);
    let h = head_of(b, cc);
    let t = tail_of(b, cc);
    let a = append_spec(h, t);
    assert(h.last() + t.first() =~= b[cc.0]);
    assert forall|j: int| 0 <= j < a.len() implies a[j] == b[j] by {
        if j < cc.0 {
            assert(a[j] == h.take(h.len() - 1)[j]);
        } else if j > cc.0 {
            assert(a[j] == t.skip(1)[j - cc.0 - 1]);
        }
    }
    assert(a =~= b);
}

/// Splitting a concatenation at the end of its first part recovers exactly
/// the two parts.
pub proof fn lemma_split_end(a: Seq<Seq<char>>, d: Seq<Seq<char>>)
    requires
        buf_wf(a),
        buf_wf(d),
    ensures
        buf_valid(append_spec(a, d), end_spec(a)),
        head_of(append_spec(a, d), end_spec(a)) == a,
        tail_of(append_spec(a, d), end_spec(a)) == d,
{
    let m = append_spec(a, d);
    let e = end_spec(a);
    assert(m[e.0] == a.last() + d.first());
    let h = head_of(m, e);
    assert forall|j: int| 0 <= j < h.len() implies h[j] == a[j] by {
        if j < e.0 {
            assert(h[j] == m.take(e.0)[j]);
            assert(m[j] == a.take(a.len() - 1)[j]);
        } else {
            assert(h[j] == m[e.0].take(e.1));
            assert(m[e.0].take(e.1) =~= a.last());
        }
    }
    assert(h =~= a);
    let t = tail_of(m, e);
    assert(m[e.0].skip(e.1) =~= d.first());
    assert forall|j: int| 0 <= j < t.len() implies t[j] == d[j] by {
        if j >= 1 {
            assert(t[j] == m.skip(e.0 + 1)[j - 1]);
            assert(m[e.0 + j] == d.skip(1)[j - 1]);
        }
    }
    assert(t =~= d);
}

/// Applying a Replace and then applying the inverse it returns restores the
/// buffer to its content before the edit.
pub proof fn lemma_replace_roundtrip(
    b: Seq<Seq<char>>,
    from: (int, int),
    until: (int, int),
    content: Seq<Seq<char>>,
)
    requires
        buf_wf(b),
        buf_wf(content),
        from.0 >= 0,
        from.1 >= 0,
        until.0 >= 0,
        until.1 >= 0,
        coord_le_spec(from, until),
    ensures
        ({
            let (b1, f1, u1, rem) = replace_spec(b, from, until, content);
            let (b2, f2, u2, rem2) = replace_spec(b1, f1, u1, rem);
            b2 == b
        }),
{
    let cf = clamp_spec(b, from);
    let afrom = if coord_lt_spec(cf, from) {
        cf
    } else {
        from
    };
    let acontent = if coord_lt_spec(cf, from) {
        append_spec(pad_of(diff_coord_spec(cf, from)), content)
    } else {
        content
    };
    let cu = clamp_spec(b, until);
    let head1 = head_of(b, cu);
    let trailer = tail_of(b, cu);
    lemma_clamp_valid(b, from);
    lemma_clamp_valid(b, until);
    lemma_clamp_cases(b, from);
    lemma_clamp_monotone(b, from, until);
    // whether the clamp rolled the start forward to the next row
    let fwd = !coord_le_spec(cf, from);
    assert(fwd ==> afrom == from && cf == ((from.0 + 1, 0int)) && from.0 < cu.0);
    assert(!fwd ==> afrom == cf);
    // in both cases the effective split point inside `head1` is `cf`
    let cf2 = clamp_spec(head1, afrom);
    assert(cf2 == cf) by {
        if fwd {
            assert(head1[from.0] == b.take(cu.0)[from.0]);
        } else {
            if cf.0 < cu.0 {
                assert(head1[cf.0] == b.take(cu.0)[cf.0]);
            }
            lemma_clamp_of_valid(head1, cf);
        }
    }
    assert(buf_valid(head1, cf2)) by {
        lemma_clamp_valid(head1, afrom);
    }
    let head2 = head_of(head1, cf2);
    let removed = tail_of(head1, cf2);
    let inserted = append_spec(head2, acontent);
    let b1 = append_spec(inserted, trailer);
    let f1 = afrom;
    let u1 = end_spec(inserted);
    assert(buf_wf(acontent)) by {
        if coord_lt_spec(cf, from) {
            assert(pad_of(diff_coord_spec(cf, from)).len() >= 1);
        }
    }
    assert((b1, f1, u1, removed) == replace_spec(b, from, until, content));
    // splitting the new buffer at the end of the inserted part recovers the
    // inserted part and the trailer
    lemma_split_end(inserted, trailer);
    // the effective split point is the end of the prefix kept below it
    assert(cf2 == end_spec(head2));
    lemma_split_end(head2, acontent);
    // the row the edit starts in is unchanged in the new buffer
    assert(cf2.0 <= inserted.len() - 1);
    assert forall|j: int| 0 <= j < cf2.0 implies inserted[j] == b[j] && b1[j] == b[j] by {
        assert(inserted[j] == head2.take(head2.len() - 1)[j]);
        assert(head2[j] == head1.take(cf2.0)[j]);
        assert(head1[j] == b.take(cu.0)[j]);
        assert(b1[j] == inserted.take(inserted.len() - 1)[j]);
    }
    // replaying the inverse clamps back to the same effective split point
    assert(buf_valid(b1, u1));
    lemma_clamp_of_valid(b1, u1);
    let c1r = clamp_spec(b1, f1);
    assert(c1r == cf2) by {
        if fwd {
            assert(b1[from.0] == b[from.0]);
        } else {
            assert(buf_valid(b1, f1)) by {
                assert(buf_valid(inserted, f1));
                if f1.0 < inserted.len() - 1 {
                    assert(b1[f1.0] == inserted.take(inserted.len() - 1)[f1.0]);
                } else {
                    assert(b1[f1.0] == inserted.last() + trailer.first());
                }
            }
            lemma_clamp_of_valid(b1, f1);
        }
    }
    assert(!coord_lt_spec(c1r, f1)) by {
        if fwd {
        } else {
        }
    }
    let cf2r = clamp_spec(head_of(b1, u1), f1);
    assert(cf2r == cf2) by {
        if fwd {
            assert(inserted[from.0] == b[from.0]);
        } else {
            assert(buf_valid(inserted, f1));
            lemma_clamp_of_valid(inserted, f1);
        }
    }
    let inserted2 = append_spec(head2, removed);
    let b2 = append_spec(inserted2, tail_of(b1, clamp_spec(b1, u1)));
    assert(b2 == replace_spec(b1, f1, u1, removed).0);
    lemma_split_append(head1, afrom);
    assert(append_spec(head2, removed) == head1) by {
        assert(head_of(head1, clamp_spec(head1, afrom)) == head2);
    }
    lemma_split_append(b, until);
    assert(b2 == b);
}

/// Taking a prefix of a prefix is taking the smaller prefix.
pub proof fn lemma_head_head(b: Seq<Seq<char>>, c: (int, int), d: (int, int))
    requires
        buf_valid(b, c),
        buf_valid(b, d),
        coord_le_spec(d, c),
    ensures
        buf_valid(head_of(b, c), d),
        head_of(head_of(b, c), d) == head_of(b, d),
{
    let h = head_of(b, c);
    assert(buf_valid(h, d)) by {
        if d.0 == c.0 {
            assert(h[d.0] == b[c.0].take(c.1));
        } else {
            assert(h[d.0] == b.take(c.0)[d.0]);
        }
    }
    assert(head_of(h, d) =~~= head_of(b, d)) by {
        assert forall|j: int| 0 <= j < head_of(h, d).len() implies head_of(h, d)[j] == head_of(
            b,
            d,
        )[j] by {
            if j < d.0 {
                assert(head_of(h, d)[j] == h.take(d.0)[j]);
                assert(h[j] == b.take(c.0)[j]);
            } else {
                assert(head_of(h, d)[j] == h[d.0].take(d.1));
                if d.0 == c.0 {
                    assert(h[d.0] == b[c.0].take(c.1));
                    assert(b[c.0].take(c.1).take(d.1) =~= b[d.0].take(d.1));
                } else {
                    assert(h[d.0] == b.take(c.0)[d.0]);
                }
            }
        }
    }
}

/// Appending to a buffer does not disturb any prefix of it.
pub proof fn lemma_head_append(a: Seq<Seq<char>>, d: Seq<Seq<char>>, e: (int, int))
    requires
        buf_wf(a),
        buf_wf(d),
        buf_valid(a, e),
    ensures
        buf_valid(append_spec(a, d), e),
        head_of(append_spec(a, d), e) == head_of(a, e),
{
    let m = append_spec(a, d);
    assert(buf_valid(m, e)) by {
        if e.0 == a.len() - 1 {
            assert(m[e.0] == a.last() + d.first());
        } else {
            assert(m[e.0] == a.take(a.len() - 1)[e.0]);
        }
    }
    assert(head_of(m, e) =~~= head_of(a, e)) by {
        assert forall|j: int| 0 <= j < head_of(m, e).len() implies head_of(m, e)[j] == head_of(
            a,
            e,
        )[j] by {
            if j < e.0 {
                assert(head_of(m, e)[j] == m.take(e.0)[j]);
                assert(m[j] == a.take(a.len() - 1)[j]);
            } else {
                assert(head_of(m, e)[j] == m[e.0].take(e.1));
                if e.0 == a.len() - 1 {
                    assert(m[e.0] == a.last() + d.first());
                    assert((a.last() + d.first()).take(e.1) =~= a.last().take(e.1));
                } else {
                    assert(m[e.0] == a.take(a.len() - 1)[e.0]);
                }
            }
        }
    }
}

/// Replacing the empty span at a valid coordinate with the empty buffer
/// leaves the buffer unchanged, and the inverse is the same no-op edit.
pub proof fn lemma_replace_noop(b: Seq<Seq<char>>, c: (int, int))
    requires
        buf_wf(b),
        buf_valid(b, c),
    ensures
        ({
            let (nb, f1, u1, removed) = replace_spec(b, c, c, seq![Seq::<char>::empty()]);
            nb == b && f1 == c && u1 == c && removed =~= seq![Seq::<char>::empty()]
        }),
{
    let e = seq![Seq::<char>::empty()];
    lemma_clamp_of_valid(b, c);
    let head1 = head_of(b, c);
    let trailer = tail_of(b, c);
    assert(buf_valid(head1, c) && end_spec(head1) == c) by {
        assert(head1[c.0] == b[c.0].take(c.1));
    }
    lemma_clamp_of_valid(head1, c);
    let head2 = head_of(head1, c);
    assert(head2 =~~= head1) by {
        assert forall|j: int| 0 <= j < head2.len() implies head2[j] == head1[j] by {
            if j < c.0 {
                assert(head2[j] == head1.take(c.0)[j]);
            } else {
                assert(head2[j] == head1[c.0].take(c.1));
                assert(head1[c.0] == b[c.0].take(c.1));
                assert(b[c.0].take(c.1).take(c.1) =~= b[c.0].take(c.1));
            }
        }
    }
    let removed = tail_of(head1, c);
    assert(removed =~~= seq![Seq::<char>::empty()]) by {
        assert(head1[c.0] == b[c.0].take(c.1));
        assert(head1[c.0].skip(c.1) =~= Seq::<char>::empty());
        assert(head1.skip(c.0 + 1) =~= Seq::<Seq<char>>::empty());
    }
    let inserted = append_spec(head2, e);
    assert(inserted =~~= head1) by {
        assert(inserted.len() == head1.len());
        assert forall|j: int| 0 <= j < inserted.len() implies inserted[j] == head1[j] by {
            if j < head1.len() - 1 {
                assert(inserted[j] == head2.take(head2.len() - 1)[j]);
            } else {
                assert(inserted[j] == head2.last() + e.first());
                assert(head2.last() + e.first() =~= head1.last());
            }
        }
    }
    assert(end_spec(inserted) == c);
    lemma_split_append(b, c);
    assert(append_spec(inserted, trailer) == b) by {
        assert(append_spec(head1, trailer) == b);
    }
}

/// The rows obtained by splitting a character sequence on newlines; one more
/// row than there are newline characters.
pub open spec fn lines_of(s: Seq<char>) -> Seq<Seq<char>>
    decreases s.len(),
{
    if s.len() == 0 {
        seq![Seq::<char>::empty()]
    } else if s[0] == '\n' {
        seq![Seq::<char>::empty()] + lines_of(s.skip(1))
    } else {
        let rest = lines_of(s.skip(1));
        seq![seq![s[0]] + rest.first()] + rest.skip(1)
    }
}

pub proof fn lemma_lines_wf(s: Seq<char>)
    ensures
        lines_of(s).len() >= 1,
    decreases s.len(),
{
    if s.len() != 0 {
        lemma_lines_wf(s.skip(1));
    }
}

/// How splitting into rows evolves as one character is added at the end: a
/// newline opens a fresh empty row, anything else extends the last row.
pub proof fn lemma_lines_snoc(s: Seq<char>, c: char)
    ensures
        c == '\n' ==> lines_of(s.push(c)) == lines_of(s).push(Seq::<char>::empty()),
        c != '\n' ==> lines_of(s.push(c)) == lines_of(s).update(
            lines_of(s).len() - 1,
            lines_of(s).last().push(c),
        ),
    decreases s.len(),
{
    lemma_lines_wf(s);
    if s.len() == 0 {
        reveal_with_fuel(lines_of, 3);
        assert(s.push(c) =~= seq![c]);
        assert(seq![c].skip(1) =~= Seq::<char>::empty());
        if c == '\n' {
            assert(lines_of(s.push(c)) =~~= lines_of(s).push(Seq::<char>::empty()));
        } else {
            assert(lines_of(s.push(c)) =~~= lines_of(s).update(
                lines_of(s).len() - 1,
                lines_of(s).last().push(c),
            ));
        }
    } else {
        assert(s.push(c)[0] == s[0]);
        assert(s.push(c).skip(1) =~= s.skip(1).push(c));
        lemma_lines_snoc(s.skip(1), c);
        lemma_lines_wf(s.skip(1));
        lemma_lines_wf(s.skip(1).push(c));
        if c == '\n' {
            assert(lines_of(s.push(c)) =~~= lines_of(s).push(Seq::<char>::empty()));
        } else {
            let rest = lines_of(s.skip(1));
            let m = rest.len();
            if s[0] == '\n' {
                assert(lines_of(s.push(c)) =~~= lines_of(s).update(
                    lines_of(s).len() - 1,
                    lines_of(s).last().push(c),
                ));
            } else {
                let restp = lines_of(s.skip(1).push(c));
                if m == 1 {
                    assert(restp.first() == rest.first().push(c));
                    assert(lines_of(s.push(c)) =~~= lines_of(s).update(
                        lines_of(s).len() - 1,
                        lines_of(s).last().push(c),
                    ));
                } else {
                    assert(restp.first() == rest.first());
                    assert(lines_of(s.push(c)) =~~= lines_of(s).update(
                        lines_of(s).len() - 1,
                        lines_of(s).last().push(c),
                    ));
                }
            }
        }
    }
}

/// The single string obtained by joining the rows with newlines; inverse of
/// `lines_of` for the buffers that function produces.
pub open spec fn content_of(b: Seq<Seq<char>>) -> Seq<char>
    decreases b.len(),
{
    if b.len() == 0 {
        Seq::<char>::empty()
    } else if b.len() == 1 {
        b[0]
    } else {
        content_of(b.drop_last()) + seq!['\n'] + b.last()
    }
}

/// Relies on std's `FromIterator` for `String`: collecting characters yields
/// the string holding exactly those characters in order.
#[verifier::external_body]
pub fn string_from_chars(v: &Vec<char>) -> (s: String)
    ensures
        s@ == v@,
{
    v.iter().collect()
}

impl TextBuffer {
    /// The buffer whose rows are the newline-separated lines of the string.
    pub fn from_string(s: &str) -> (b: TextBuffer)
        ensures
            b@ == lines_of(s@),
            b.wf(),
    {
        let n = s.unicode_len();
        let mut contents: Vec<Vec<char>> = Vec::new();
        let mut current: Vec<char> = Vec::new();
        let mut i: usize = 0;
        proof {
            assert(s@.take(0) =~= Seq::<char>::empty());
        }
        while i < n
            invariant
                i <= n,
                n == s@.len(),
                lines_of(s@.take(i as int)) == contents@.map_values(|r: Vec<char>| r@).push(
                    current@,
                ),
            decreases n - i,
        {
            let ghost prev = lines_of(s@.take(i as int));
            let c = s.get_char(i);
            proof {
                assert(s@.take(i + 1 as int) =~= s@.take(i as int).push(c));
                lemma_lines_snoc(s@.take(i as int), c);
            }
            if c == '\n' {
                contents.push(current);
                current = Vec::new();
                proof {
                    assert(lines_of(s@.take(i + 1 as int)) =~= contents@.map_values(
                        |r: Vec<char>| r@,
                    ).push(current@));
                }
            } else {
                current.push(c);
                proof {
                    assert(lines_of(s@.take(i + 1 as int)) =~= contents@.map_values(
                        |r: Vec<char>| r@,
                    ).push(current@));
                }
            }
            i += 1;
        }
        contents.push(current);
        proof {
            assert(s@.take(n as int) =~= s@);
            assert(contents@.map_values(|r: Vec<char>| r@) =~= lines_of(s@));
        }
        TextBuffer { contents }
    }

    /// Render the contents of the buffer as a new String.
    pub fn content_string(&self) -> (s: String)
        requires
            self.wf(),
        ensures
            s@ == content_of(self@),
    {
        let mut acc: Vec<char> = Vec::new();
        let n = self.contents.len();
        let mut i: usize = 0;
        while i < n
            invariant
                i <= n,
                n == self@.len(),
                self.wf(),
                acc@ == content_of(self@.take(i as int)),
            decreases n - i,
        {
            let ghost prefix = self@.take(i as int);
            if i != 0 {
                acc.push('\n');
            }
            let row = &self.contents[i];
            let m = row.len();
            let ghost mid = acc@;
            let mut j: usize = 0;
            while j < m
                invariant
                    j <= m,
                    m == row@.len(),
                    acc@ == mid + row@.take(j as int),
                decreases m - j,
            {
                acc.push(row[j]);
                proof {
                    assert(mid + row@.take(j + 1 as int) =~= (mid + row@.take(j as int)).push(
                        row@[j as int],
                    ));
                }
                j += 1;
            }
            proof {
                assert(row@.take(m as int) =~= row@);
                assert(self@.take(i + 1 as int).drop_last() =~= prefix);
                assert(self@.take(i + 1 as int).last() == self@[i as int]);
                assert(self@[i as int] == row@);
                if i == 0 {
                    assert(acc@ =~= content_of(self@.take(1)));
                } else {
                    assert(acc@ =~= content_of(self@.take(i + 1 as int)));
                }
            }
            i += 1;
        }
        proof {
            assert(self@.take(n as int) =~= self@);
        }
        string_from_chars(&acc)
    }
}

} // verus!
