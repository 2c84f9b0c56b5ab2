use vstd::prelude::*;

use crate::rotation::{
    lemma_rotate_left_then_right, lemma_rotate_right_then_left, lemma_rotated_left_index, rotate_vec_left,
    rotate_vec_right, rotated_left, rotated_right,
};
use crate::{HEIGHT, WIDTH};

verus! {

/// Bytes in one row of an RGBA frame.
pub const LINE_BYTES: usize = 4 * WIDTH;

/// A byte after one step of fading: one less, but never below 0.
pub open spec fn faded(b: u8) -> u8 {
    if b > 0 { (b - 1) as u8 } else { 0 }
}

/// `line` with the four bytes `rgba` written at byte `at`.
pub open spec fn painted(line: Seq<u8>, at: int, rgba: Seq<u8>) -> Seq<u8> {
    line.subrange(0, at) + rgba + line.subrange(at + 4, line.len() as int)
}

/// A row of zero bytes.
pub open spec fn blank_line() -> Seq<u8> {
    Seq::new(LINE_BYTES as nat, |_i: int| 0u8)
}

/// `line` turned by `x` pixels: left by `4 * x` bytes, or right by `4 * -x` bytes when
/// `x <= 0`.
pub open spec fn turned_line(line: Seq<u8>, x: int) -> Seq<u8> {
    if x > 0 {
        rotated_left(line, 4 * x)
    } else {
        rotated_right(line, -4 * x)
    }
}

/// `rows` turned down by `y` rows, or up by `-y` rows when `y <= 0`.
pub open spec fn shifted_rows<T>(rows: Seq<T>, y: int) -> Seq<T> {
    if y > 0 {
        rotated_right(rows, y)
    } else {
        rotated_left(rows, -y)
    }
}

/// Rows after scrolling by (`x`, `y`): every row turns by `x` pixels, then the rows
/// turn by `y` (see `turned_line` and `shifted_rows`).
pub open spec fn scrolled_rows(rows: Seq<Seq<u8>>, x: int, y: int) -> Seq<Seq<u8>> {
    shifted_rows(rows.map_values(|line: Seq<u8>| turned_line(line, x)), y)
}

/// Turning a line by `x` pixels and then by `-x` pixels gives it back.
pub proof fn lemma_turn_undone(line: Seq<u8>, x: int)
    requires
        4 * x <= line.len(),
        -4 * x <= line.len(),
    ensures
        turned_line(turned_line(line, x), -x) == line,
{
    if x > 0 {
        lemma_rotate_left_then_right(line, 4 * x);
    } else if x < 0 {
        lemma_rotate_right_then_left(line, -4 * x);
    } else {
        assert(rotated_right(line, 0) =~= line);
        assert(rotated_right(rotated_right(line, 0), 0) =~= line);
    }
}

/// Shifting rows by `y` and then by `-y` gives them back.
pub proof fn lemma_shift_undone<T>(rows: Seq<T>, y: int)
    requires
        y <= rows.len(),
        -y <= rows.len(),
    ensures
        shifted_rows(shifted_rows(rows, y), -y) == rows,
{
    if y > 0 {
        lemma_rotate_right_then_left(rows, y);
    } else if y < 0 {
        lemma_rotate_left_then_right(rows, -y);
    } else {
        assert(rotated_left(rows, 0) =~= rows);
        assert(rotated_left(rotated_left(rows, 0), 0) =~= rows);
    }
}

/// Item `i` of `rows` shifted by `y` is item `(i - y) mod len` of `rows`.
pub proof fn lemma_shifted_index<T>(rows: Seq<T>, y: int, i: int)
    requires
        y <= rows.len(),
        -y <= rows.len(),
        0 <= i < rows.len(),
    ensures
        shifted_rows(rows, y).len() == rows.len(),
        shifted_rows(rows, y)[i] == rows[if 0 <= i - y < rows.len() {
            i - y
        } else if i - y < 0 {
            i - y + rows.len()
        } else {
            i - y - rows.len()
        }],
{
    if y > 0 {
        lemma_rotated_left_index(rows, rows.len() - y, i);
    } else {
        lemma_rotated_left_index(rows, -y, i);
    }
}

/// Scrolling a buffer by (`x`, `y`) and then by (`-x`, `-y`) gives back its rows, for
/// any rows at least `4 * |x|` bytes long and a shift of at most their number.
pub proof fn lemma_scroll_undone(rows: Seq<Seq<u8>>, x: int, y: int)
    requires
        forall|i: int| 0 <= i < rows.len() ==> 4 * (if x >= 0 { x } else { -x }) <= (#[trigger] rows[i]).len(),
        -rows.len() <= y <= rows.len(),
    ensures
        scrolled_rows(scrolled_rows(rows, x, y), -x, -y) == rows,
{
    let t = rows.map_values(|line: Seq<u8>| turned_line(line, x));
    let s1 = shifted_rows(t, y);
    let back = t.map_values(|line: Seq<u8>| turned_line(line, -x));
    assert forall|i: int| 0 <= i < rows.len() implies #[trigger] back[i] == rows[i] by {
        lemma_turn_undone(rows[i], x);
    }
    assert(back =~= rows);
    let m = s1.map_values(|line: Seq<u8>| turned_line(line, -x));
    assert forall|i: int| 0 <= i < rows.len() implies #[trigger] m[i] == shifted_rows(back, y)[i] by {
        lemma_shifted_index(t, y, i);
        lemma_shifted_index(back, y, i);
    }
    assert(m =~= shifted_rows(back, y));
    lemma_shift_undone(rows, y);
}

/// The number of whole rows of `LINE_BYTES` bytes that `frame` holds, but at most
/// `HEIGHT`.
pub open spec fn rows_in(frame: Seq<u8>) -> int {
    if (frame.len() as int) / (LINE_BYTES as int) < HEIGHT {
        (frame.len() as int) / (LINE_BYTES as int)
    } else {
        HEIGHT as int
    }
}

/// `frame` with its leading whole rows overwritten by `rows`: byte `q` of the first
/// `rows_in(frame)` rows is byte `q % LINE_BYTES` of row `q / LINE_BYTES`; the bytes
/// after them stay.
pub open spec fn copied_into(frame: Seq<u8>, rows: Seq<Seq<u8>>) -> Seq<u8> {
    Seq::new(
        frame.len(),
        |q: int|
            if q < LINE_BYTES * rows_in(frame) {
                rows[q / (LINE_BYTES as int)][q % (LINE_BYTES as int)]
            } else {
                frame[q]
            },
    )
}

/// `rows` with each of the first `rows_in(frame)` rows replaced by the matching row of
/// `frame`.
pub open spec fn loaded_from(rows: Seq<Seq<u8>>, frame: Seq<u8>) -> Seq<Seq<u8>> {
    Seq::new(
        rows.len(),
        |i: int|
            if i < rows_in(frame) {
                frame.subrange(LINE_BYTES * i, LINE_BYTES * (i + 1))
            } else {
                rows[i]
            },
    )
}

/// Byte `c` of row `i` sits at offset `LINE_BYTES * i + c` of a frame.
pub proof fn lemma_row_offset(i: int, c: int)
    requires
        0 <= i,
        0 <= c < LINE_BYTES,
    ensures
        (LINE_BYTES * i + c) / (LINE_BYTES as int) == i,
        (LINE_BYTES * i + c) % (LINE_BYTES as int) == c,
{
    assert(LINE_BYTES * i + c == i * LINE_BYTES + c) by (nonlinear_arith);
    vstd::arithmetic::div_mod::lemma_fundamental_div_mod_converse(
        LINE_BYTES * i + c,
        LINE_BYTES as int,
        i,
        c,
    );
}

/// `rows` whole rows fit in a frame of `len` bytes when `rows` is at most `rows_in`.
proof fn lemma_whole_rows(len: int, rows: int)
    requires
        0 <= len,
        0 <= rows <= len / (LINE_BYTES as int),
    ensures
        LINE_BYTES * rows <= len,
{
    vstd::arithmetic::div_mod::lemma_fundamental_div_mod(len, LINE_BYTES as int);
    vstd::arithmetic::mul::lemma_mul_inequality(rows, len / (LINE_BYTES as int), LINE_BYTES as int);
    vstd::arithmetic::div_mod::lemma_mod_pos_bound(len, LINE_BYTES as int);
    assert(LINE_BYTES * rows == rows * LINE_BYTES) by (nonlinear_arith);
    assert(LINE_BYTES * (len / (LINE_BYTES as int)) == (len / (LINE_BYTES as int)) * LINE_BYTES) by (nonlinear_arith);
}

/// A frame of at least `HEIGHT` whole rows holds `HEIGHT` rows in the sense of `rows_in`.
pub proof fn lemma_rows_in_full(frame: Seq<u8>)
    requires
        frame.len() >= LINE_BYTES * HEIGHT,
    ensures
        rows_in(frame) == HEIGHT,
{
    lemma_row_offset(HEIGHT as int, 0);
    vstd::arithmetic::div_mod::lemma_div_is_ordered(LINE_BYTES * HEIGHT, frame.len() as int, LINE_BYTES as int);
}

/// Byte `q` of a frame is byte `q % LINE_BYTES` of row `q / LINE_BYTES`.
pub proof fn lemma_offset_split(q: int)
    requires
        0 <= q,
    ensures
        0 <= q % (LINE_BYTES as int) < LINE_BYTES,
        0 <= q / (LINE_BYTES as int),
        q == LINE_BYTES * (q / (LINE_BYTES as int)) + q % (LINE_BYTES as int),
        q < LINE_BYTES * HEIGHT ==> q / (LINE_BYTES as int) < HEIGHT,
{
    vstd::arithmetic::div_mod::lemma_fundamental_div_mod(q, LINE_BYTES as int);
    vstd::arithmetic::div_mod::lemma_mod_pos_bound(q, LINE_BYTES as int);
    vstd::arithmetic::div_mod::lemma_div_pos_is_pos(q, LINE_BYTES as int);
    if q < LINE_BYTES * HEIGHT {
        let d = q / (LINE_BYTES as int);
        if d >= HEIGHT {
            assert(LINE_BYTES * d >= LINE_BYTES * HEIGHT) by (nonlinear_arith)
                requires
                    d >= HEIGHT,
            ;
        }
    }
}

/// Loading a frame of exactly `HEIGHT` rows into a buffer and copying the buffer back
/// gives the frame back.
pub proof fn lemma_load_then_copy(rows: Seq<Seq<u8>>, frame: Seq<u8>)
    requires
        rows.len() == HEIGHT,
        frame.len() == LINE_BYTES * HEIGHT,
    ensures
        copied_into(frame, loaded_from(rows, frame)) == frame,
{
    lemma_rows_in_full(frame);
    let loaded = loaded_from(rows, frame);
    assert forall|q: int| 0 <= q < frame.len() implies #[trigger] copied_into(frame, loaded)[q] == frame[q] by {
        lemma_offset_split(q);
        let i = q / (LINE_BYTES as int);
        assert(LINE_BYTES * (i + 1) <= frame.len()) by (nonlinear_arith)
            requires
                i < HEIGHT,
                frame.len() == LINE_BYTES * HEIGHT,
        ;
        assert(LINE_BYTES * (i + 1) == LINE_BYTES * i + LINE_BYTES) by (nonlinear_arith);
    }
    assert(copied_into(frame, loaded) =~= frame);
}

/// Copying a well-formed buffer into a frame of at least `HEIGHT` rows and loading it
/// back gives back the rows.
pub proof fn lemma_copy_then_load(rows: Seq<Seq<u8>>, frame: Seq<u8>)
    requires
        rows.len() == HEIGHT,
        forall|i: int| 0 <= i < HEIGHT ==> (#[trigger] rows[i]).len() == LINE_BYTES,
        frame.len() >= LINE_BYTES * HEIGHT,
    ensures
        loaded_from(rows, copied_into(frame, rows)) == rows,
{
    lemma_rows_in_full(frame);
    let copied = copied_into(frame, rows);
    lemma_rows_in_full(copied);
    assert forall|i: int| 0 <= i < HEIGHT implies #[trigger] loaded_from(rows, copied)[i] == rows[i] by {
        assert(LINE_BYTES * (i + 1) <= LINE_BYTES * HEIGHT) by (nonlinear_arith)
            requires
                i < HEIGHT,
        ;
        assert(LINE_BYTES * (i + 1) == LINE_BYTES * i + LINE_BYTES) by (nonlinear_arith);
        assert forall|c: int| 0 <= c < LINE_BYTES implies #[trigger] copied.subrange(LINE_BYTES * i, LINE_BYTES * (i + 1))[c] == rows[i][c] by {
            lemma_row_offset(i, c);
        }
        assert(copied.subrange(LINE_BYTES * i, LINE_BYTES * (i + 1)) =~= rows[i]);
    }
    assert(loaded_from(rows, copied) =~= rows);
}

/// For a frame of exactly `HEIGHT` rows, fading the buffer and then copying it gives the
/// same frame as copying it and then fading the frame.
pub proof fn lemma_fade_commutes(rows: Seq<Seq<u8>>, frame: Seq<u8>)
    requires
        rows.len() == HEIGHT,
        forall|i: int| 0 <= i < HEIGHT ==> (#[trigger] rows[i]).len() == LINE_BYTES,
        frame.len() == LINE_BYTES * HEIGHT,
    ensures
        copied_into(frame, rows.map_values(|line: Seq<u8>| line.map_values(|b: u8| faded(b))))
            == copied_into(frame, rows).map_values(|b: u8| faded(b)),
{
    lemma_rows_in_full(frame);
    let f = rows.map_values(|line: Seq<u8>| line.map_values(|b: u8| faded(b)));
    assert forall|q: int| 0 <= q < frame.len() implies #[trigger] copied_into(frame, f)[q]
        == copied_into(frame, rows).map_values(|b: u8| faded(b))[q] by {
        lemma_offset_split(q);
    }
    assert(copied_into(frame, f) =~= copied_into(frame, rows).map_values(|b: u8| faded(b)));
}

/// An RGBA frame held as `HEIGHT` separate rows of `LINE_BYTES` bytes.
pub struct LineBuf(Vec<Vec<u8>>);

impl LineBuf {
    /// The rows of the buffer, top to bottom.
    pub closed spec fn rows(&self) -> Seq<Seq<u8>> {
        self.0@.map_values(|line: Vec<u8>| line@)
    }

    /// The buffer has `HEIGHT` rows of `LINE_BYTES` bytes each.
    pub open spec fn wf(&self) -> bool {
        &&& self.rows().len() == HEIGHT
        &&& forall|i: int| 0 <= i < HEIGHT ==> (#[trigger] self.rows()[i]).len() == LINE_BYTES
    }
}

impl LineBuf {
    /// All rows, for direct access; their number stays fixed.
    pub fn lines_mut(&mut self) -> (lines: &mut [Vec<u8>])
        ensures
            lines@.map_values(|line: Vec<u8>| line@) == old(self).rows(),
            final(self).rows() == final(lines)@.map_values(|line: Vec<u8>| line@),
    {
        self.0.as_mut_slice()
    }

    /// Scrolls the picture by (`x`, `y`) with wrap-around: each row turns left by `x`
    /// pixels (right by `-x` when `x <= 0`), then the rows turn down by `y` (up by `-y`
    /// when `y <= 0`).
    pub fn scroll(&mut self, x: i32, y: i32)
        requires
            forall|j: int|
                0 <= j < old(self).rows().len() ==> 4 * (if x >= 0 { x as int } else { -x }) <= (
                #[trigger] old(self).rows()[j]).len(),
            (if y >= 0 { y as int } else { -y }) <= old(self).rows().len(),
        ensures
            final(self).rows() == scrolled_rows(old(self).rows(), x as int, y as int),
            old(self).wf() ==> final(self).wf(),
    {
        let ghost start = self.rows();
        let ghost turned = start.map_values(|line: Seq<u8>| turned_line(line, x as int));
        let n = self.0.len();
        let k: usize = if n == 0 {
            0
        } else {
            let width = self.0[0].len();
            assert(self.0@[0]@ == start[0]);
            assert(4 * (if x >= 0 { x as int } else { -x }) <= width);
            if x > 0 { 4 * x as usize } else { 4 * (-(x as i64)) as usize }
        };
        let mut i: usize = 0;
        while i < n
            invariant
                i <= n,
                n == start.len(),
                self.0@.len() == n,
                n > 0 ==> k == if x > 0 { 4 * x } else { -4 * x },
                forall|j: int| 0 <= j < n ==> k <= (#[trigger] start[j]).len(),
                turned.len() == n,
                forall|j: int|
                    0 <= j < n ==> #[trigger] turned[j] == if x > 0 {
                        rotated_left(start[j], k as int)
                    } else {
                        rotated_right(start[j], k as int)
                    },
                forall|j: int|
                    0 <= j < n ==> (#[trigger] self.0@[j])@ == if j < i {
                        turned[j]
                    } else {
                        start[j]
                    },
            decreases n - i,
        {
            assert(self.0@[i as int]@ == start[i as int]);
            if x > 0 {
                rotate_vec_left(&mut self.0[i], k);
            } else {
                rotate_vec_right(&mut self.0[i], k);
            }
            i = i + 1;
        }
        assert(self.rows() =~= turned);
        if y > 0 {
            rotate_vec_right(&mut self.0, y as usize);
        } else {
            rotate_vec_left(&mut self.0, (-(y as i64)) as usize);
        }
        assert(self.rows() =~= scrolled_rows(start, x as int, y as int));
        proof {
            if start.len() == HEIGHT && forall|j: int| 0 <= j < HEIGHT ==> (#[trigger] start[j]).len() == LINE_BYTES {
                assert forall|j: int| 0 <= j < HEIGHT implies (#[trigger] self.rows()[j]).len() == LINE_BYTES by {
                    lemma_shifted_index(turned, y as int, j);
                }
            }
        }
    }

    /// Fades the picture: every byte goes down by one, stopping at 0.
    pub fn decay(&mut self)
        ensures
            final(self).rows() == old(self).rows().map_values(|line: Seq<u8>| line.map_values(|b: u8| faded(b))),
            old(self).wf() ==> final(self).wf(),
    {
        let ghost start = self.rows();
        let n = self.0.len();
        let mut i: usize = 0;
        while i < n
            invariant
                i <= n,
                n == start.len(),
                self.0@.len() == n,
                forall|j: int|
                    0 <= j < n ==> (#[trigger] self.0@[j])@ == if j < i {
                        start[j].map_values(|b: u8| faded(b))
                    } else {
                        start[j]
                    },
            decreases n - i,
        {
            fade_line(&mut self.0[i]);
            i = i + 1;
        }
        assert(self.rows() =~= start.map_values(|line: Seq<u8>| line.map_values(|b: u8| faded(b))));
    }

    /// Loads the buffer from `frame`: each whole row of `frame`, up to `HEIGHT` of them,
    /// replaces the matching row of the buffer.
    pub fn from_frame(&mut self, frame: &[u8])
        requires
            old(self).wf(),
        ensures
            final(self).wf(),
            final(self).rows() == loaded_from(old(self).rows(), frame@),
    {
        let ghost start = self.rows();
        let ghost target = loaded_from(start, frame@);
        let rows = if frame.len() / LINE_BYTES < HEIGHT { frame.len() / LINE_BYTES } else { HEIGHT };
        proof {
            lemma_whole_rows(frame@.len() as int, rows as int);
        }
        let mut i: usize = 0;
        while i < rows
            invariant
                i <= rows,
                rows == rows_in(frame@),
                LINE_BYTES * rows <= frame@.len(),
                frame@.len() <= usize::MAX,
                self.0@.len() == HEIGHT,
                start.len() == HEIGHT,
                target == loaded_from(start, frame@),
                forall|j: int| 0 <= j < HEIGHT ==> (#[trigger] start[j]).len() == LINE_BYTES,
                forall|j: int|
                    0 <= j < HEIGHT ==> (#[trigger] self.0@[j])@ == if j < i {
                        target[j]
                    } else {
                        start[j]
                    },
            decreases rows - i,
        {
            assert(self.0@[i as int]@.len() == LINE_BYTES);
            assert(LINE_BYTES * i + LINE_BYTES <= LINE_BYTES * rows) by (nonlinear_arith)
                requires
                    i < rows,
            ;
            assert(LINE_BYTES * (i + 1) == LINE_BYTES * i + LINE_BYTES) by (nonlinear_arith);
            load_line(&mut self.0[i], frame, LINE_BYTES * i);
            i = i + 1;
        }
        assert(self.rows() =~= target);
    }

    /// Sets pixel (`x`, `y`) to the opaque colour (`r`, `g`, `b`).
    pub fn plot_rgb(&mut self, x: usize, y: usize, r: u8, g: u8, b: u8)
        requires
            y < old(self).rows().len(),
            4 * x + 4 <= old(self).rows()[y as int].len(),
        ensures
            final(self).rows() == old(self).rows().update(
                y as int,
                painted(old(self).rows()[y as int], 4 * x, seq![r, g, b, 0xffu8]),
            ),
            old(self).wf() ==> final(self).wf(),
    {
        self.plot_rgba(x, y, r, g, b, 0xff);
    }

    /// Sets pixel (`x`, `y`) to the colour (`r`, `g`, `b`) with alpha `a`.
    pub fn plot_rgba(&mut self, x: usize, y: usize, r: u8, g: u8, b: u8, a: u8)
        requires
            y < old(self).rows().len(),
            4 * x + 4 <= old(self).rows()[y as int].len(),
        ensures
            final(self).rows() == old(self).rows().update(
                y as int,
                painted(old(self).rows()[y as int], 4 * x, seq![r, g, b, a]),
            ),
            old(self).wf() ==> final(self).wf(),
    {
        let ghost start = self.rows();
        assert(self.0@[y as int]@ == start[y as int]);
        let width = self.0[y].len();
        assert(4 * x + 4 <= width);
        let pos = 4 * x;
        self.0[y][pos] = r;
        self.0[y][pos + 1] = g;
        self.0[y][pos + 2] = b;
        self.0[y][pos + 3] = a;
        assert(self.0@[y as int]@ =~= painted(start[y as int], 4 * x, seq![r, g, b, a]));
        assert(self.rows() =~= start.update(y as int, painted(start[y as int], 4 * x, seq![r, g, b, a])));
    }

    /// Sets pixel (`x`, `y`) to the opaque colour (`r`, `g`, `b`); the same as `plot_rgb`,
    /// for callers that have already checked the bounds.
    pub fn plot_rgb_fast(&mut self, x: usize, y: usize, r: u8, g: u8, b: u8)
        requires
            y < old(self).rows().len(),
            4 * x + 4 <= old(self).rows()[y as int].len(),
        ensures
            final(self).rows() == old(self).rows().update(
                y as int,
                painted(old(self).rows()[y as int], 4 * x, seq![r, g, b, 0xffu8]),
            ),
            old(self).wf() ==> final(self).wf(),
    {
        self.plot_rgba(x, y, r, g, b, 0xff);
    }

    /// Sets pixel (`x`, `y`) to the colour (`r`, `g`, `b`) with alpha `a`; the same as
    /// `plot_rgba`, for callers that have already checked the bounds.
    pub fn plot_rgba_fast(&mut self, x: usize, y: usize, r: u8, g: u8, b: u8, a: u8)
        requires
            y < old(self).rows().len(),
            4 * x + 4 <= old(self).rows()[y as int].len(),
        ensures
            final(self).rows() == old(self).rows().update(
                y as int,
                painted(old(self).rows()[y as int], 4 * x, seq![r, g, b, a]),
            ),
            old(self).wf() ==> final(self).wf(),
    {
        self.plot_rgba(x, y, r, g, b, a);
    }

    /// Copies row `i` into `dst`, which is as long as the row.
    pub fn copy_line_to(&self, i: usize, dst: &mut [u8])
        requires
            i < self.rows().len(),
            old(dst)@.len() == self.rows()[i as int].len(),
        ensures
            final(dst)@ == self.rows()[i as int],
    {
        assert(self.0@[i as int]@ == self.rows()[i as int]);
        store_line(dst, 0, &self.0[i]);
        assert(dst@ =~= self.rows()[i as int]);
    }

    /// Copies the buffer into `frame`: each of the frame's whole rows, up to `HEIGHT` of
    /// them, gets the matching row of the buffer; any bytes after them stay.
    pub fn copy_to_frame(&self, frame: &mut [u8])
        requires
            self.wf(),
        ensures
            final(frame)@ == copied_into(old(frame)@, self.rows()),
    {
        let ghost start = frame@;
        let rows = if frame.len() / LINE_BYTES < HEIGHT { frame.len() / LINE_BYTES } else { HEIGHT };
        proof {
            lemma_whole_rows(frame@.len() as int, rows as int);
        }
        let mut i: usize = 0;
        while i < rows
            invariant
                self.wf(),
                i <= rows,
                rows == rows_in(start),
                LINE_BYTES * rows <= start.len(),
                start.len() <= usize::MAX,
                frame@.len() == start.len(),
                forall|q: int|
                    0 <= q < start.len() ==> #[trigger] frame@[q] == if q < LINE_BYTES * i {
                        self.rows()[q / (LINE_BYTES as int)][q % (LINE_BYTES as int)]
                    } else {
                        start[q]
                    },
            decreases rows - i,
        {
            let ghost before = frame@;
            assert(self.0@[i as int]@ == self.rows()[i as int]);
            assert(LINE_BYTES * i + LINE_BYTES <= LINE_BYTES * rows) by (nonlinear_arith)
                requires
                    i < rows,
            ;
            assert(LINE_BYTES * (i + 1) == LINE_BYTES * i + LINE_BYTES) by (nonlinear_arith);
            store_line(frame, LINE_BYTES * i, &self.0[i]);
            assert forall|q: int| 0 <= q < start.len() implies #[trigger] frame@[q] == if q < LINE_BYTES * (i + 1) {
                self.rows()[q / (LINE_BYTES as int)][q % (LINE_BYTES as int)]
            } else {
                start[q]
            } by {
                if LINE_BYTES * i <= q < LINE_BYTES * (i + 1) {
                    lemma_row_offset(i as int, q - LINE_BYTES * i);
                } else {
                    assert(frame@[q] == before[q]);
                }
            }
            i = i + 1;
        }
        assert(frame@ =~= copied_into(start, self.rows()));
    }
}

/// Fades every byte of `line` by one, stopping at 0.
fn fade_line(line: &mut Vec<u8>)
    ensures
        final(line)@ == old(line)@.map_values(|b: u8| faded(b)),
{
    let ghost start = line@;
    let n = line.len();
    let mut c: usize = 0;
    while c < n
        invariant
            n == start.len(),
            c <= n,
            line@.len() == n,
            forall|q: int| 0 <= q < n ==> #[trigger] line@[q] == if q < c { faded(start[q]) } else { start[q] },
        decreases n - c,
    {
        let v = line[c];
        line[c] = v.saturating_sub(1);
        c = c + 1;
    }
    assert(line@ =~= start.map_values(|b: u8| faded(b)));
}

/// Overwrites `line` with the bytes of `frame` from `at` on.
fn load_line(line: &mut Vec<u8>, frame: &[u8], at: usize)
    requires
        at + old(line)@.len() <= frame@.len(),
    ensures
        final(line)@ == frame@.subrange(at as int, at + old(line)@.len()),
{
    let ghost start = line@;
    assert(frame@.len() == frame.len());
    let n = line.len();
    let mut c: usize = 0;
    while c < n
        invariant
            n == start.len(),
            at + n <= frame@.len(),
            frame@.len() <= usize::MAX,
            c <= n,
            line@.len() == n,
            forall|q: int| 0 <= q < n ==> #[trigger] line@[q] == if q < c { frame@[at + q] } else { start[q] },
        decreases n - c,
    {
        line[c] = frame[at + c];
        c = c + 1;
    }
    assert(line@ =~= frame@.subrange(at as int, at + n));
}

/// Writes the bytes of `line` into `frame` from `at` on.
fn store_line(frame: &mut [u8], at: usize, line: &Vec<u8>)
    requires
        at + line@.len() <= old(frame)@.len(),
    ensures
        final(frame)@.len() == old(frame)@.len(),
        forall|q: int|
            0 <= q < old(frame)@.len() ==> #[trigger] final(frame)@[q] == if at <= q < at + line@.len() {
                line@[q - at]
            } else {
                old(frame)@[q]
            },
{
    let ghost start = frame@;
    assert(frame@.len() == frame.len());
    let n = line.len();
    let mut c: usize = 0;
    while c < n
        invariant
            n == line@.len(),
            at + n <= start.len(),
            start.len() <= usize::MAX,
            c <= n,
            frame@.len() == start.len(),
            forall|q: int|
                0 <= q < start.len() ==> #[trigger] frame@[q] == if at <= q < at + c {
                    line@[q - at]
                } else {
                    start[q]
                },
        decreases n - c,
    {
        frame[at + c] = line[c];
        c = c + 1;
    }
}

impl Default for LineBuf {
    /// A black, fully transparent buffer: `HEIGHT` rows of zero bytes.
    fn default() -> (buf: Self)
        ensures
            buf.wf(),
            forall|i: int| 0 <= i < HEIGHT ==> #[trigger] buf.rows()[i] == blank_line(),
    {
        let mut lines: Vec<Vec<u8>> = Vec::new();
        let mut i: usize = 0;
        while i < HEIGHT
            invariant
                i <= HEIGHT,
                lines@.len() == i,
                forall|k: int| 0 <= k < i ==> (#[trigger] lines@[k])@ == blank_line(),
            decreases HEIGHT - i,
        {
            let mut line: Vec<u8> = Vec::new();
            let mut j: usize = 0;
            while j < LINE_BYTES
                invariant
                    j <= LINE_BYTES,
                    line@ == Seq::new(j as nat, |_i: int| 0u8),
                decreases LINE_BYTES - j,
            {
                line.push(0);
                j = j + 1;
            }
            assert(line@ == blank_line());
            lines.push(line);
            i = i + 1;
        }
        LineBuf(lines)
    }
}

} // verus!
