//! A rectangular character-and-style grid that rendered frames are written
//! into, and the interface of the backend that flushes a finished grid to
//! the screen.

use vstd::prelude::*;
use vstd::arithmetic::div_mod::lemma_fundamental_div_mod_converse_mod;
use vstd::arithmetic::div_mod::lemma_fundamental_div_mod_converse_div;
use vstd::pervasive::VecAdditionalExecFns;

verus! {

/// A row-major two-dimensional array: `shape` is (width, height) and cell
/// (col, row) lives at flat index `row * width + col`.
pub struct Vec2D<T> {
    pub data: Vec<T>,
    pub shape: (usize, usize),
}

/// A flat index within bounds stays within the grid's cell count.
proof fn lemma_flat_index_bound(w: nat, h: nat, c: nat, r: nat)
    requires
        c < w,
        r < h,
    ensures
        r * w + c < w * h,
        r * w <= r * w + c,
{
    assert(r * w + c < w * h) by (nonlinear_arith)
        requires
            c < w,
            r < h,
    ;
}

/// The flat index of an in-bounds cell determines its column and row.
proof fn lemma_flat_index_coords(w: int, c: int, r: int)
    requires
        0 < w,
        0 <= c < w,
        0 <= r,
    ensures
        (r * w + c) / w == r,
        (r * w + c) % w == c,
{
    lemma_fundamental_div_mod_converse_mod(r * w + c, w, r, c);
    lemma_fundamental_div_mod_converse_div(r * w + c, w, r, c);
}

impl<T> Vec2D<T> {
    /// The flat storage holds exactly width times height cells.
    pub open spec fn wf(&self) -> bool {
        self.data@.len() == self.shape.0 as nat * self.shape.1 as nat
    }

    /// A grid of the given shape over an existing row-major cell vector,
    /// which must hold exactly width times height cells.
    pub fn from_vec(width: usize, height: usize, data: Vec<T>) -> (r: Self)
        requires
            data@.len() == width as nat * height as nat,
        ensures
            r.data == data,
            r.shape == (width, height),
            r.wf(),
    {
        Vec2D { data, shape: (width, height) }
    }

    /// The number of columns.
    pub fn width(&self) -> (r: usize)
        ensures
            r == self.shape.0,
    {
        self.shape.0
    }

    /// The flat index of the cell at (col, row).
    pub fn index(&self, col: usize, row: usize) -> (r: usize)
        requires
            self.wf(),
            col < self.shape.0,
            row < self.shape.1,
        ensures
            r == row * self.shape.0 + col,
            r < self.data@.len(),
    {
        // pins the cell count to a machine word for the flat-index arithmetic
        let n = self.data.len();
        proof {
            lemma_flat_index_bound(
                self.shape.0 as nat,
                self.shape.1 as nat,
                col as nat,
                row as nat,
            );
        }
        row * self.width() + col
    }

    /// The cell at (col, row).
    pub fn get(&self, col: usize, row: usize) -> (r: &T)
        requires
            self.wf(),
            col < self.shape.0,
            row < self.shape.1,
        ensures
            *r == self.data@[row as int * self.shape.0 as int + col as int],
    {
        let idx = self.index(col, row);
        &self.data[idx]
    }

    /// Overwrites the cell at (col, row).
    pub fn set(&mut self, col: usize, row: usize, value: T)
        requires
            old(self).wf(),
            col < old(self).shape.0,
            row < old(self).shape.1,
        ensures
            final(self).wf(),
            final(self).shape == old(self).shape,
            final(self).data@ == old(self).data@.update(
                row as int * old(self).shape.0 as int + col as int,
                value,
            ),
    {
        let idx = self.index(col, row);
        self.data.set(idx, value);
    }
}

impl<T: Copy> Vec2D<T> {
    /// Sets every cell to the given value.
    pub fn fill(&mut self, value: T)
        requires
            old(self).wf(),
        ensures
            final(self).wf(),
            final(self).shape == old(self).shape,
            final(self).data@.len() == old(self).data@.len(),
            forall|i: int| 0 <= i < final(self).data@.len() ==> final(self).data@[i] == value,
    {
        let mut i: usize = 0;
        let n = self.data.len();
        while i < n
            invariant
                i <= n,
                n == self.data@.len(),
                self.wf(),
                self.shape == old(self).shape,
                self.data@.len() == old(self).data@.len(),
                forall|j: int| 0 <= j < i ==> self.data@[j] == value,
            decreases n - i,
        {
            self.data.set(i, value);
            i = i + 1;
        }
    }

    /// Sets the cells of the half-open rectangle from (x0, y0) inclusive to
    /// (x1, y1) exclusive; every other cell keeps its value.
    pub fn set_rect(&mut self, x0: usize, y0: usize, x1: usize, y1: usize, value: T)
        requires
            old(self).wf(),
            x0 <= x1 <= old(self).shape.0,
            y0 <= y1 <= old(self).shape.1,
        ensures
            final(self).wf(),
            final(self).shape == old(self).shape,
            final(self).data@.len() == old(self).data@.len(),
            forall|i: int|
                0 <= i < final(self).data@.len() ==> final(self).data@[i] == (
                if x0 <= i % (old(self).shape.0 as int) < x1 && y0 <= i / (old(self).shape.0 as int) < y1 {
                    value
                } else {
                    old(self).data@[i]
                }),
    {
        let w = self.shape.0;
        let mut y = y0;
        while y < y1
            invariant
                old(self).wf(),
                x0 <= x1 <= old(self).shape.0,
                y0 <= y <= y1 <= old(self).shape.1,
                w == old(self).shape.0,
                self.wf(),
                self.shape == old(self).shape,
                self.data@.len() == old(self).data@.len(),
                forall|i: int|
                    0 <= i < self.data@.len() ==> self.data@[i] == (
                    if x0 <= i % (w as int) < x1 && y0 <= i / (w as int) < y {
                        value
                    } else {
                        old(self).data@[i]
                    }),
            decreases y1 - y,
        {
            let mut x = x0;
            while x < x1
                invariant
                    old(self).wf(),
                    x0 <= x <= x1 <= old(self).shape.0,
                    y0 <= y < y1 <= old(self).shape.1,
                    w == old(self).shape.0,
                    self.wf(),
                    self.shape == old(self).shape,
                    self.data@.len() == old(self).data@.len(),
                    forall|i: int|
                        0 <= i < self.data@.len() ==> self.data@[i] == (
                        if (x0 <= i % (w as int) < x1 && y0 <= i / (w as int) < y) || (i / (w as int) == y && x0 <= i % (w as int) < x) {
                            value
                        } else {
                            old(self).data@[i]
                        }),
                decreases x1 - x,
            {
                self.set(x, y, value);
                proof {
                    lemma_flat_index_coords(w as int, x as int, y as int);
                    lemma_flat_index_bound(
                        w as nat,
                        old(self).shape.1 as nat,
                        x as nat,
                        y as nat,
                    );
                    assert forall|i: int|
                        0 <= i < self.data@.len() && i != (y as int * w as int
                            + x as int) implies !((#[trigger] (i / (w as int))) == y
                        && i % (w as int) == x) by {
                        vstd::arithmetic::div_mod::lemma_fundamental_div_mod(i, w as int);
                        assert(w as int * (i / (w as int)) == (i / (w as int)) * (w as int))
                            by (nonlinear_arith);
                    }
                }
                x = x + 1;
            }
            y = y + 1;
        }
    }
}

impl<T: Copy + Default> Vec2D<T> {
    /// A fresh grid of the given shape; the cell contents are the type's
    /// default value, about which nothing further is assumed.
    pub fn new(width: usize, height: usize) -> (r: Self)
        requires
            width as nat * height as nat <= usize::MAX,
        ensures
            r.shape == (width, height),
            r.wf(),
    {
        let size = width * height;
        let data: Vec<T> = vec![Default::default(); size];
        Self::from_vec(width, height, data)
    }
}

/// The backend a finished grid is flushed into: a frame is opened with
/// `prepare`, receives every cell in row-major order through `write_char`,
/// and is shown by `finalize`.
pub trait RenderTarget {
    type Error;

    type Style;

    /// The backend's internal consistency.
    spec fn wf(&self) -> bool;

    /// Whether this kind of backend always accepts a frame; flushing into
    /// such a backend is owed success.
    spec fn infallible() -> bool;

    /// The cells received since the frame was opened, in order.
    spec fn frame(&self) -> Seq<(char, Self::Style)>;

    /// Opens a fresh frame.
    fn prepare(&mut self) -> (r: Result<(), Self::Error>)
        requires
            old(self).wf(),
        ensures
            final(self).wf(),
            r is Ok ==> final(self).frame() == Seq::<(char, Self::Style)>::empty(),
            r is Err ==> final(self).frame() == old(self).frame(),
            Self::infallible() ==> r is Ok,
    ;

    /// Appends one cell to the current frame.
    fn write_char(&mut self, ch: char, s: &Self::Style) -> (r: Result<(), Self::Error>)
        requires
            old(self).wf(),
        ensures
            final(self).wf(),
            r is Ok ==> final(self).frame() == old(self).frame().push((ch, *s)),
            r is Err ==> final(self).frame() == old(self).frame(),
            Self::infallible() ==> r is Ok,
    ;

    /// Shows the finished frame.
    fn finalize(&mut self) -> (r: Result<(), Self::Error>)
        requires
            old(self).wf(),
        ensures
            final(self).wf(),
            final(self).frame() == old(self).frame(),
            Self::infallible() ==> r is Ok,
    ;
}

/// A double buffer for one frame: a grid of characters and a grid of style
/// tags of the same shape.
pub struct TextBuffer<S> {
    pub text: Vec2D<char>,
    pub style: Vec2D<S>,
}

/// The cells of a frame in row-major order: each character paired with its
/// style.
pub open spec fn frame_cells<S>(text: Seq<char>, style: Seq<S>) -> Seq<(char, S)> {
    Seq::new(text.len(), |i: int| (text[i], style[i]))
}

impl<S: Copy + Default> TextBuffer<S> {
    /// Both planes have the same shape and consistent storage.
    pub open spec fn wf(&self) -> bool {
        &&& self.text.wf()
        &&& self.style.wf()
        &&& self.text.shape == self.style.shape
    }

    /// A buffer of the given size.
    pub fn new(width: usize, height: usize) -> (r: Self)
        requires
            width as nat * height as nat <= usize::MAX,
        ensures
            r.wf(),
            r.text.shape == (width, height),
    {
        TextBuffer { text: Vec2D::new(width, height), style: Vec2D::new(width, height) }
    }

    /// Replaces the buffer by a fresh one of the given size.
    pub fn resize(&mut self, width: usize, height: usize)
        requires
            width as nat * height as nat <= usize::MAX,
        ensures
            final(self).wf(),
            final(self).text.shape == (width, height),
    {
        self.text = Vec2D::new(width, height);
        self.style = Vec2D::new(width, height);
    }

    /// Fills the whole buffer with one character and one style.
    pub fn clear(&mut self, ch: char, style: S)
        requires
            old(self).wf(),
        ensures
            final(self).wf(),
            final(self).text.shape == old(self).text.shape,
            final(self).text.data@.len() == old(self).text.data@.len(),
            forall|i: int|
                0 <= i < final(self).text.data@.len() ==> final(self).text.data@[i] == ch,
            forall|i: int|
                0 <= i < final(self).style.data@.len() ==> final(self).style.data@[i] == style,
    {
        self.text.fill(ch);
        self.style.fill(style);
    }

    /// Sets the character and style of one cell; a position outside the
    /// buffer is ignored.
    pub fn set_char(&mut self, x: usize, y: usize, ch: char, style: S)
        requires
            old(self).wf(),
        ensures
            final(self).wf(),
            final(self).text.shape == old(self).text.shape,
            final(self).text.data@.len() == old(self).text.data@.len(),
            forall|i: int|
                0 <= i < final(self).text.data@.len() ==> final(self).text.data@[i] == (
                if i / (old(self).text.shape.0 as int) == y && i % (old(self).text.shape.0 as int)
                    == x {
                    ch
                } else {
                    old(self).text.data@[i]
                }),
            forall|i: int|
                0 <= i < final(self).style.data@.len() ==> final(self).style.data@[i] == (
                if i / (old(self).text.shape.0 as int) == y && i % (old(self).text.shape.0 as int)
                    == x {
                    style
                } else {
                    old(self).style.data@[i]
                }),
    {
        let w = self.text.shape.0;
        let h = self.text.shape.1;
        if x < w && y < h {
            self.text.set(x, y, ch);
            self.style.set(x, y, style);
            proof {
                lemma_flat_index_coords(w as int, x as int, y as int);
                lemma_flat_index_bound(w as nat, h as nat, x as nat, y as nat);
                assert forall|i: int| 0 <= i < self.text.data@.len() implies self.text.data@[i]
                    == (if i / (w as int) == y && i % (w as int) == x {
                    ch
                } else {
                    old(self).text.data@[i]
                }) by {
                    assert(self.text.data@ == old(self).text.data@.update(
                        y as int * w as int + x as int,
                        ch,
                    ));
                    if i == y as int * w as int + x as int {
                        assert(i / (w as int) == y);
                        assert(i % (w as int) == x);
                        assert(self.text.data@[i] == ch);
                    } else {
                        vstd::arithmetic::div_mod::lemma_fundamental_div_mod(i, w as int);
                        assert(w as int * (i / (w as int)) == (i / (w as int)) * (w as int))
                            by (nonlinear_arith);
                        assert(!(i / (w as int) == y && i % (w as int) == x));
                        assert(self.text.data@[i] == old(self).text.data@[i]);
                    }
                }
                assert forall|i: int| 0 <= i < self.style.data@.len() implies self.style.data@[i]
                    == (if i / (w as int) == y && i % (w as int) == x {
                    style
                } else {
                    old(self).style.data@[i]
                }) by {
                    if i != y as int * w as int + x as int {
                        vstd::arithmetic::div_mod::lemma_fundamental_div_mod(i, w as int);
                        assert(w as int * (i / (w as int)) == (i / (w as int)) * (w as int))
                            by (nonlinear_arith);
                    }
                }
            }
        } else {
            proof {
                if w > 0 {
                    assert forall|i: int|
                        0 <= i < self.text.data@.len() implies !((#[trigger] (i / (w as int)))
                        == y && i % (w as int) == x) by {
                        lemma_flat_index_bound_converse(w as int, h as int, i);
                    }
                }
            }
        }
    }

    /// Fills the half-open rectangle from (x0, y0) inclusive to (x1, y1)
    /// exclusive with one character and one style.
    pub fn fill_rect(&mut self, x0: usize, y0: usize, x1: usize, y1: usize, ch: char, style: S)
        requires
            old(self).wf(),
            x0 <= x1 <= old(self).text.shape.0,
            y0 <= y1 <= old(self).text.shape.1,
        ensures
            final(self).wf(),
            final(self).text.shape == old(self).text.shape,
            final(self).text.data@.len() == old(self).text.data@.len(),
            forall|i: int|
                0 <= i < final(self).text.data@.len() ==> final(self).text.data@[i] == (
                if x0 <= i % (old(self).text.shape.0 as int) < x1 && y0 <= i / (old(self).text.shape.0 as int) < y1 {
                    ch
                } else {
                    old(self).text.data@[i]
                }),
            forall|i: int|
                0 <= i < final(self).style.data@.len() ==> final(self).style.data@[i] == (
                if x0 <= i % (old(self).text.shape.0 as int) < x1 && y0 <= i / (old(self).text.shape.0 as int) < y1 {
                    style
                } else {
                    old(self).style.data@[i]
                }),
    {
        self.text.set_rect(x0, y0, x1, y1, ch);
        self.style.set_rect(x0, y0, x1, y1, style);
    }

    /// Draws a horizontal run of one character from column x0 to column x1,
    /// both inclusive, in row y.
    pub fn draw_hline(&mut self, y: usize, x0: usize, x1: usize, ch: char, style: S)
        requires
            old(self).wf(),
        ensures
            final(self).wf(),
            final(self).text.shape == old(self).text.shape,
            final(self).text.data@.len() == old(self).text.data@.len(),
            forall|i: int|
                0 <= i < final(self).text.data@.len() ==> final(self).text.data@[i] == (
                if i / (old(self).text.shape.0 as int) == y && x0 <= i % (old(self).text.shape.0 as int) <= x1 {
                    ch
                } else {
                    old(self).text.data@[i]
                }),
            forall|i: int|
                0 <= i < final(self).style.data@.len() ==> final(self).style.data@[i] == (
                if i / (old(self).text.shape.0 as int) == y && x0 <= i % (old(self).text.shape.0 as int) <= x1 {
                    style
                } else {
                    old(self).style.data@[i]
                }),
    {
        if x0 > x1 {
            return ;
        }
        let mut x = x0;
        while x < x1
            invariant
                old(self).wf(),
                x0 <= x <= x1,
                self.wf(),
                self.text.shape == old(self).text.shape,
                self.text.data@.len() == old(self).text.data@.len(),
                self.style.data@.len() == old(self).style.data@.len(),
                forall|i: int|
                    0 <= i < self.text.data@.len() ==> self.text.data@[i] == (
                    if i / (old(self).text.shape.0 as int) == y && x0 <= i % (old(self).text.shape.0 as int) < x {
                        ch
                    } else {
                        old(self).text.data@[i]
                    }),
                forall|i: int|
                    0 <= i < self.style.data@.len() ==> self.style.data@[i] == (
                    if i / (old(self).text.shape.0 as int) == y && x0 <= i % (old(self).text.shape.0 as int) < x {
                        style
                    } else {
                        old(self).style.data@[i]
                    }),
            decreases x1 - x,
        {
            self.set_char(x, y, ch, style);
            x = x + 1;
        }
        self.set_char(x1, y, ch, style);
    }

    /// Draws a vertical run of one character from row y0 to row y1, both
    /// inclusive, in column x.
    pub fn draw_vline(&mut self, x: usize, y0: usize, y1: usize, ch: char, style: S)
        requires
            old(self).wf(),
        ensures
            final(self).wf(),
            final(self).text.shape == old(self).text.shape,
            final(self).text.data@.len() == old(self).text.data@.len(),
            forall|i: int|
                0 <= i < final(self).text.data@.len() ==> final(self).text.data@[i] == (
                if i % (old(self).text.shape.0 as int) == x && y0 <= i / (old(self).text.shape.0 as int) <= y1 {
                    ch
                } else {
                    old(self).text.data@[i]
                }),
            forall|i: int|
                0 <= i < final(self).style.data@.len() ==> final(self).style.data@[i] == (
                if i % (old(self).text.shape.0 as int) == x && y0 <= i / (old(self).text.shape.0 as int) <= y1 {
                    style
                } else {
                    old(self).style.data@[i]
                }),
    {
        if y0 > y1 {
            return ;
        }
        let mut y = y0;
        while y < y1
            invariant
                old(self).wf(),
                y0 <= y <= y1,
                self.wf(),
                self.text.shape == old(self).text.shape,
                self.text.data@.len() == old(self).text.data@.len(),
                self.style.data@.len() == old(self).style.data@.len(),
                forall|i: int|
                    0 <= i < self.text.data@.len() ==> self.text.data@[i] == (
                    if i % (old(self).text.shape.0 as int) == x && y0 <= i / (old(self).text.shape.0 as int) < y {
                        ch
                    } else {
                        old(self).text.data@[i]
                    }),
                forall|i: int|
                    0 <= i < self.style.data@.len() ==> self.style.data@[i] == (
                    if i % (old(self).text.shape.0 as int) == x && y0 <= i / (old(self).text.shape.0 as int) < y {
                        style
                    } else {
                        old(self).style.data@[i]
                    }),
            decreases y1 - y,
        {
            self.set_char(x, y, ch, style);
            y = y + 1;
        }
        self.set_char(x, y1, ch, style);
    }

    /// Flushes the buffer into a render backend: one fresh frame holding
    /// every cell in row-major order.
    pub fn render<T: RenderTarget<Style = S>>(&self, target: &mut T) -> (r: Result<(), T::Error>)
        requires
            self.wf(),
            old(target).wf(),
        ensures
            final(target).wf(),
            r is Ok ==> final(target).frame() == frame_cells(
                self.text.data@,
                self.style.data@,
            ),
            r is Err ==> final(target).frame() == old(target).frame() || (exists|k: int|
                0 <= k <= frame_cells(self.text.data@, self.style.data@).len()
                    && final(target).frame() == #[trigger] frame_cells(
                    self.text.data@,
                    self.style.data@,
                ).take(k)),
            T::infallible() ==> r is Ok,
    {
        let r0 = target.prepare();
        if r0.is_err() {
            return r0;
        }
        let w = self.text.shape.0;
        let h = self.text.shape.1;
        let n = self.text.data.len();
        let ghost cells = frame_cells(self.text.data@, self.style.data@);
        proof {
            assert(self.style.data@.len() == n);
        }
        let mut y: usize = 0;
        let mut count: usize = 0;
        while y < h
            invariant
                self.wf(),
                w == self.text.shape.0,
                h == self.text.shape.1,
                y <= h,
                count as nat == y as nat * w as nat,
                count <= n,
                n == self.text.data@.len(),
                n == self.style.data@.len(),
                cells == frame_cells(self.text.data@, self.style.data@),
                cells.len() == self.text.data@.len(),
                target.wf(),
                target.frame() == cells.take(count as int),
            decreases h - y,
        {
            let mut x: usize = 0;
            while x < w
                invariant
                    self.wf(),
                    w == self.text.shape.0,
                    h == self.text.shape.1,
                    y < h,
                    x <= w,
                    count as nat == y as nat * w as nat + x as nat,
                    count <= n,
                    n == self.text.data@.len(),
                    n == self.style.data@.len(),
                    cells == frame_cells(self.text.data@, self.style.data@),
                    cells.len() == self.text.data@.len(),
                    target.wf(),
                    target.frame() == cells.take(count as int),
                decreases w - x,
            {
                proof {
                    lemma_flat_index_bound(w as nat, h as nat, x as nat, y as nat);
                    assert(count < n);
                }
                let ch = *self.text.get(x, y);
                let st = self.style.get(x, y);
                let rc = target.write_char(ch, st);
                if rc.is_err() {
                    proof {
                        assert(target.frame() == frame_cells(
                            self.text.data@,
                            self.style.data@,
                        ).take(count as int));
                    }
                    return rc;
                }
                proof {
                    assert(cells.take(count as int + 1).drop_last() =~= cells.take(
                        count as int,
                    ));
                    assert(cells.take(count as int + 1) =~= cells.take(count as int).push(
                        cells[count as int],
                    ));
                }
                count = count + 1;
                x = x + 1;
            }
            proof {
                assert((y as nat + 1) * w as nat == y as nat * w as nat + w as nat)
                    by (nonlinear_arith);
            }
            y = y + 1;
        }
        proof {
            assert(self.text.data@.len() == h as nat * w as nat) by (nonlinear_arith)
                requires
                    self.text.data@.len() == w as nat * h as nat,
            ;
            assert(cells.take(count as int) =~= cells);
        }
        let rf = target.finalize();
        proof {
            if rf is Err {
                assert(target.frame() == frame_cells(
                    self.text.data@,
                    self.style.data@,
                ).take(count as int));
            }
        }
        rf
    }
}

/// An in-bounds flat index decodes to an in-bounds column and row.
proof fn lemma_flat_index_bound_converse(w: int, h: int, i: int)
    requires
        0 < w,
        0 <= i < w * h,
    ensures
        0 <= i % w < w,
        0 <= i / w < h,
{
    vstd::arithmetic::div_mod::lemma_mod_bound(i, w);
    vstd::arithmetic::div_mod::lemma_fundamental_div_mod(i, w);
    assert(0 <= i / w < h) by (nonlinear_arith)
        requires
            0 < w,
            0 <= i < w * h,
            i == w * (i / w) + i % w,
            0 <= i % w < w,
    ;
}

} // verus!
