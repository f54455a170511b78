use vstd::prelude::*;

verus! {

/// A logical position in a buffer: `y` is the line (counted from zero) and
/// `x` the byte column within that line.
#[derive(Clone, Copy, Debug, PartialEq, Eq, Structural)]
pub struct Point {
    pub x: usize,
    pub y: usize,
}

impl Default for Point {
    fn default() -> (r: Self)
        ensures
            r == (Point { x: 0, y: 0 }),
    {
        Point { x: 0, y: 0 }
    }
}

/// Offset at which the line holding offset `o` begins.
pub open spec fn line_start(t: Seq<u8>, o: int) -> int
    decreases o,
{
    if o <= 0 {
        0
    } else if t[o - 1] == 10u8 {
        o
    } else {
        line_start(t, o - 1)
    }
}

/// Number of line breaks among the first `o` bytes.
pub open spec fn line_breaks(t: Seq<u8>, o: int) -> int
    decreases o,
{
    if o <= 0 {
        0
    } else {
        line_breaks(t, o - 1) + if t[o - 1] == 10u8 { 1int } else { 0int }
    }
}

/// Logical position of byte offset `o`.
pub open spec fn point_of(t: Seq<u8>, o: int) -> Point {
    Point { x: (o - line_start(t, o)) as usize, y: line_breaks(t, o) as usize }
}

/// Offset reached from `i` by first passing `y` line breaks, then moving
/// right by at most `x` bytes without leaving the line; the end of the text
/// stops both walks.
pub open spec fn seek(t: Seq<u8>, i: int, y: int, x: int) -> int
    decreases t.len() - i,
{
    if i < 0 || i >= t.len() {
        t.len() as int
    } else if y > 0 {
        if t[i] == 10u8 {
            seek(t, i + 1, y - 1, x)
        } else {
            seek(t, i + 1, y, x)
        }
    } else if x > 0 && t[i] != 10u8 {
        seek(t, i + 1, 0, x - 1)
    } else {
        i
    }
}

proof fn lemma_seek_bounds(t: Seq<u8>, i: int, y: int, x: int)
    requires
        0 <= i <= t.len(),
    ensures
        i <= seek(t, i, y, x) <= t.len(),
    decreases t.len() - i,
{
    if i < t.len() {
        if y > 0 {
            if t[i] == 10u8 {
                lemma_seek_bounds(t, i + 1, y - 1, x);
            } else {
                lemma_seek_bounds(t, i + 1, y, x);
            }
        } else if x > 0 && t[i] != 10u8 {
            lemma_seek_bounds(t, i + 1, 0, x - 1);
        }
    }
}

proof fn lemma_line_start_bounds(t: Seq<u8>, o: int)
    requires
        0 <= o <= t.len(),
    ensures
        0 <= line_start(t, o) <= o,
        0 <= line_breaks(t, o) <= o,
    decreases o,
{
    if o > 0 {
        lemma_line_start_bounds(t, o - 1);
    }
}

/// An in-memory text buffer with one edit cursor: the bytes of the text and
/// the cursor's byte offset into them.
pub struct TextBuffer {
    text: Vec<u8>,
    cursor: usize,
}

impl TextBuffer {
    pub closed spec fn text(&self) -> Seq<u8> {
        self.text@
    }

    pub closed spec fn cursor(&self) -> int {
        self.cursor as int
    }

    /// The cursor lies within the text or at its end.
    pub open spec fn wf(&self) -> bool {
        0 <= self.cursor() <= self.text().len()
    }

    /// An empty buffer with the cursor at its start.
    pub fn new() -> (r: TextBuffer)
        ensures
            r.wf(),
            r.text() == Seq::<u8>::empty(),
            r.cursor() == 0,
    {
        TextBuffer { text: Vec::new(), cursor: 0 }
    }

    /// Total length of the text in bytes.
    pub fn text_length(&self) -> (r: usize)
        ensures
            r == self.text().len(),
    {
        self.text.len()
    }

    /// Byte offset of the cursor.
    pub fn cursor_offset(&self) -> (r: usize)
        requires
            self.wf(),
        ensures
            r == self.cursor(),
            r <= self.text().len(),
    {
        self.cursor
    }

    /// The chunk of bytes that starts at `offset`. This buffer keeps its text
    /// in one piece, so the chunk runs to the end of the text; it is empty at
    /// and past the end.
    pub fn read_forward(&self, offset: usize) -> (r: &[u8])
        ensures
            offset <= self.text().len() ==> r@ == self.text().subrange(offset as int, self.text().len() as int),
            offset > self.text().len() ==> r@.len() == 0,
    {
        let n = self.text.len();
        if offset <= n {
            vstd::slice::slice_subrange(self.text.as_slice(), offset, n)
        } else {
            vstd::slice::slice_subrange(self.text.as_slice(), n, n)
        }
    }

    /// The chunk of bytes that ends at `offset`: here, everything before it.
    pub fn read_backward(&self, offset: usize) -> (r: &[u8])
        ensures
            offset <= self.text().len() ==> r@ == self.text().subrange(0, offset as int),
            offset > self.text().len() ==> r@ == self.text(),
    {
        let n = self.text.len();
        if offset <= n {
            vstd::slice::slice_subrange(self.text.as_slice(), 0, offset)
        } else {
            proof {
                assert(self.text@.subrange(0, n as int) =~= self.text@);
            }
            vstd::slice::slice_subrange(self.text.as_slice(), 0, n)
        }
    }

    /// Logical position of a byte offset.
    pub fn offset_to_point(&self, offset: usize) -> (r: Point)
        requires
            offset <= self.text().len(),
        ensures
            r == point_of(self.text(), offset as int),
    {
        let mut i: usize = 0;
        let mut start: usize = 0;
        let mut lines: usize = 0;
        while i < offset
            invariant
                i <= offset <= self.text@.len(),
                start == line_start(self.text@, i as int),
                lines == line_breaks(self.text@, i as int),
            decreases offset - i,
        {
            proof {
                lemma_line_start_bounds(self.text@, i as int);
            }
            if self.text[i] == 10u8 {
                start = i + 1;
                lines = lines + 1;
            }
            i = i + 1;
        }
        proof {
            lemma_line_start_bounds(self.text@, offset as int);
        }
        Point { x: offset - start, y: lines }
    }

    /// Logical position of the cursor.
    pub fn cursor_logical_pos(&self) -> (r: Point)
        requires
            self.wf(),
        ensures
            r == point_of(self.text(), self.cursor()),
    {
        self.offset_to_point(self.cursor)
    }

    /// Moves the cursor to byte `offset`, or to the end of the text where
    /// `offset` lies past it.
    pub fn cursor_move_to_offset(&mut self, offset: usize)
        ensures
            final(self).wf(),
            final(self).text() == old(self).text(),
            final(self).cursor() == if offset <= old(self).text().len() {
                offset as int
            } else {
                old(self).text().len() as int
            },
    {
        let n = self.text.len();
        self.cursor = if offset <= n { offset } else { n };
    }

    /// Moves the cursor to the logical position `pos`. A line past the last
    /// one sends it to the end of the text; a column past the end of its line
    /// sends it to the end of that line.
    pub fn cursor_move_to_logical(&mut self, pos: Point)
        ensures
            final(self).wf(),
            final(self).text() == old(self).text(),
            final(self).cursor() == seek(old(self).text(), 0, pos.y as int, pos.x as int),
    {
        let n = self.text.len();
        let mut i: usize = 0;
        let mut y: usize = pos.y;
        let mut x: usize = pos.x;
        while i < n
            invariant
                n == self.text@.len(),
                i <= n,
                seek(self.text@, i as int, y as int, x as int) == seek(
                    self.text@,
                    0,
                    pos.y as int,
                    pos.x as int,
                ),
            ensures
                i <= n,
                seek(self.text@, i as int, y as int, x as int) == i,
            decreases n - i,
        {
            if y > 0 {
                if self.text[i] == 10u8 {
                    y = y - 1;
                }
            } else if x > 0 && self.text[i] != 10u8 {
                x = x - 1;
            } else {
                break;
            }
            i = i + 1;
        }
        proof {
            lemma_seek_bounds(self.text@, 0, pos.y as int, pos.x as int);
        }
        self.cursor = i;
    }

    /// Inserts `bytes` at the cursor and moves the cursor past them.
    pub fn write_canon(&mut self, bytes: &[u8])
        requires
            old(self).wf(),
        ensures
            final(self).wf(),
            final(self).text() == old(self).text().subrange(0, old(self).cursor())
                + bytes@ + old(self).text().subrange(old(self).cursor(), old(self).text().len() as int),
            final(self).cursor() == old(self).cursor() + bytes@.len(),
    {
        let ghost t0 = self.text@;
        let ghost c0 = self.cursor as int;
        let mut i: usize = 0;
        while i < bytes.len()
            invariant
                i <= bytes@.len(),
                0 <= c0 <= t0.len(),
                self.cursor as int == c0 + i,
                self.text@ == t0.subrange(0, c0) + bytes@.subrange(0, i as int) + t0.subrange(
                    c0,
                    t0.len() as int,
                ),
            decreases bytes@.len() - i,
        {
            let ghost before = self.text@;
            self.text.insert(self.cursor, bytes[i]);
            proof {
                assert(bytes@.subrange(0, i + 1) =~= bytes@.subrange(0, i as int).push(bytes@[i as int]));
                assert(self.text@ =~= t0.subrange(0, c0) + bytes@.subrange(0, i + 1) + t0.subrange(
                    c0,
                    t0.len() as int,
                ));
            }
            let new_len = self.text.len();
            assert(self.cursor < new_len);
            self.cursor = self.cursor + 1;
            i = i + 1;
        }
        proof {
            assert(bytes@.subrange(0, bytes@.len() as int) =~= bytes@);
        }
    }

    /// Deletes up to `count` bytes before the cursor: all of them where fewer
    /// than `count` precede it.
    pub fn delete_backward(&mut self, count: usize)
        requires
            old(self).wf(),
        ensures
            final(self).wf(),
            final(self).cursor() == old(self).cursor() - vstd::math::min(count as int, old(self).cursor()),
            final(self).text() == old(self).text().subrange(0, final(self).cursor())
                + old(self).text().subrange(old(self).cursor(), old(self).text().len() as int),
    {
        let ghost t0 = self.text@;
        let ghost c0 = self.cursor as int;
        let mut k: usize = 0;
        while k < count && self.cursor > 0
            invariant
                k <= count,
                self.cursor as int == c0 - k,
                0 <= self.cursor <= self.text@.len(),
                self.text@ == t0.subrange(0, self.cursor as int) + t0.subrange(c0, t0.len() as int),
                c0 <= t0.len(),
            decreases count - k,
        {
            self.text.remove(self.cursor - 1);
            proof {
                assert(self.text@ =~= t0.subrange(0, self.cursor - 1) + t0.subrange(c0, t0.len() as int));
            }
            self.cursor = self.cursor - 1;
            k = k + 1;
        }
    }
}

} // verus!
