//! The drawable components of the editor: the widget interface, a decorative
//! frame around a widget, and the sink that writes rendered expressions into
//! a character grid.

use vstd::prelude::*;

use vstd::string::StrSliceExecFns;

use crate::model::{
    cap_usize, get_at, lemma_get_empty, lemma_get_with_root_style, lemma_prep_preserves_get,
    prep, replace_at, ExprView, SinkCmd,
};
use crate::sexpr_view::SexprView;
use crate::styles::Style;
use crate::sxfmt::{sat_add, Formatter, Pretty, PrettyExpr, PrettyFormatter};
use crate::textbuffer::TextBuffer;

verus! {

/// Subtraction on `usize` that stops at zero instead of underflowing.
fn sat_sub(a: usize, b: usize) -> (r: usize)
    ensures
        r == if a >= b {
            (a - b) as usize
        } else {
            0usize
        },
{
    if a >= b {
        a - b
    } else {
        0
    }
}

/// A drawable, resizable screen component.
pub trait Item {
    /// The component's internal consistency, preserved across operations.
    spec fn inv(&self) -> bool;

    /// The component's current size as (width, height).
    fn size(&self) -> (usize, usize)
        requires
            self.inv(),
    ;

    /// Gives the component a new size.
    fn resize(&mut self, width: usize, height: usize)
        requires
            old(self).inv(),
        ensures
            final(self).inv(),
    ;

    /// Paints the component into the buffer with its top-left corner at
    /// (x, y); painting outside the buffer is clipped.
    fn draw(&self, buf: &mut TextBuffer<Style>, x: usize, y: usize)
        requires
            self.inv(),
            old(buf).wf(),
        ensures
            final(buf).wf(),
    ;
}

/// A widget wrapped in a one-cell decorative border.
pub struct Framed<T> {
    pub tiles: [char; 9],
    pub style: Style,
    pub inner: T,
}

impl<T: Item> Framed<T> {
    /// Wraps a widget in the default box-drawing border.
    pub fn new(inner: T) -> (r: Self)
        ensures
            r.inner == inner,
    {
        let tiles: [char; 9] = ['╔', '═', '╗', '║', ' ', '║', '╚', '═', '╝'];
        Framed { tiles, style: Style::Frame, inner }
    }
}

impl<T: Item> Item for Framed<T> {
    open spec fn inv(&self) -> bool {
        self.inner.inv()
    }

    fn size(&self) -> (usize, usize) {
        let (w, h) = self.inner.size();
        (sat_add(w, 2), sat_add(h, 2))
    }

    fn resize(&mut self, width: usize, height: usize) {
        let w = sat_sub(width, 2);
        let h = sat_sub(height, 2);
        self.inner.resize(w, h);
    }

    fn draw(&self, buf: &mut TextBuffer<Style>, x: usize, y: usize) {
        let (width, height) = self.size();
        let right = sat_add(x, width);
        let bottom = sat_add(y, height);

        buf.set_char(x, y, self.tiles[0], self.style);
        buf.set_char(right, y, self.tiles[2], self.style);
        buf.set_char(x, bottom, self.tiles[6], self.style);
        buf.set_char(right, bottom, self.tiles[8], self.style);

        buf.draw_hline(y, sat_add(x, 1), sat_sub(right, 1), self.tiles[1], self.style);
        buf.draw_hline(bottom, sat_add(x, 1), sat_sub(right, 1), self.tiles[7], self.style);
        buf.draw_vline(x, sat_add(y, 1), sat_sub(bottom, 1), self.tiles[3], self.style);
        buf.draw_vline(right, sat_add(y, 1), sat_sub(bottom, 1), self.tiles[5], self.style);

        let gw = buf.text.shape.0;
        let gh = buf.text.shape.1;
        let fx1 = if right < gw {
            right
        } else {
            gw
        };
        let fy1 = if bottom < gh {
            bottom
        } else {
            gh
        };
        let fx0 = if sat_add(x, 1) < fx1 {
            sat_add(x, 1)
        } else {
            fx1
        };
        let fy0 = if sat_add(y, 1) < fy1 {
            sat_add(y, 1)
        } else {
            fy1
        };
        buf.fill_rect(fx0, fy0, fx1, fy1, self.tiles[4], self.style);
        self.inner.draw(buf, sat_add(x, 1), sat_add(y, 1));
    }
}

/// Where the virtual cursor of a positional sink stands after a command
/// stream: text advances the column, a line break repositions to the column
/// where the rendering began — not to column zero — one row further down;
/// style instructions do not move it. Positions saturate at the machine
/// word, far beyond any real grid.
pub open spec fn cursor_after(cmds: Seq<SinkCmd<Style>>, x0: usize, y0: usize) -> (usize, usize)
    decreases cmds,
{
    if cmds.len() == 0 {
        (x0, y0)
    } else {
        let prev = cursor_after(cmds.drop_last(), x0, y0);
        match cmds.last() {
            SinkCmd::Text(s) => ((cap_usize(prev.0 as nat + s.len()) as usize), prev.1),
            SinkCmd::Newline => (x0, (cap_usize(prev.1 as nat + 1) as usize)),
            _ => prev,
        }
    }
}

/// One cell of a row-major text plane overwritten, in the same clipped form
/// the grid's cell writes use: a position outside the plane changes nothing.
pub open spec fn paint_cell(tp: Seq<char>, w: int, x: int, y: int, ch: char) -> Seq<char> {
    Seq::new(
        tp.len(),
        |i: int|
            if i / w == y && i % w == x {
                ch
            } else {
                tp[i]
            },
    )
}

/// A run of characters painted left to right from (col, row), the column
/// saturating at the machine word; cells outside the plane are clipped.
pub open spec fn paint_text(tp: Seq<char>, w: int, col: usize, row: usize, s: Seq<char>) -> Seq<
    char,
>
    decreases s.len(),
{
    if s.len() == 0 {
        tp
    } else {
        paint_text(
            paint_cell(tp, w, col as int, row as int, s.first()),
            w,
            (cap_usize(col as nat + 1) as usize),
            row,
            s.drop_first(),
        )
    }
}

/// The text plane of the grid after a command stream: each text command
/// paints its characters at the cursor the preceding commands left, and no
/// other command touches a cell.
pub open spec fn text_grid_after(
    cmds: Seq<SinkCmd<Style>>,
    tp0: Seq<char>,
    w: int,
    x0: usize,
    y0: usize,
) -> Seq<char>
    decreases cmds,
{
    if cmds.len() == 0 {
        tp0
    } else {
        let tp = text_grid_after(cmds.drop_last(), tp0, w, x0, y0);
        let pos = cursor_after(cmds.drop_last(), x0, y0);
        match cmds.last() {
            SinkCmd::Text(s) => paint_text(tp, w, pos.0, pos.1, s),
            _ => tp,
        }
    }
}

/// The active style after a command stream: the last style set, with each
/// restore reverting to the style active at its matching save.
pub open spec fn style_after(cmds: Seq<SinkCmd<Style>>, s0: Style, stack0: Seq<Style>) -> Style
    decreases cmds,
{
    if cmds.len() == 0 {
        s0
    } else {
        let prev = style_after(cmds.drop_last(), s0, stack0);
        let stack = stack_after(cmds.drop_last(), s0, stack0);
        match cmds.last() {
            SinkCmd::SetStyle(t) => t,
            SinkCmd::RestoreStyle => if stack.len() > 0 {
                stack.last()
            } else {
                prev
            },
            _ => prev,
        }
    }
}

/// The style stack after a command stream: saves push the active style,
/// restores pop it, in strict LIFO order.
pub open spec fn stack_after(cmds: Seq<SinkCmd<Style>>, s0: Style, stack0: Seq<Style>) -> Seq<
    Style,
>
    decreases cmds,
{
    if cmds.len() == 0 {
        stack0
    } else {
        let prev = style_after(cmds.drop_last(), s0, stack0);
        let stack = stack_after(cmds.drop_last(), s0, stack0);
        match cmds.last() {
            SinkCmd::SaveStyle => stack.push(prev),
            SinkCmd::RestoreStyle => if stack.len() > 0 {
                stack.drop_last()
            } else {
                stack
            },
            _ => stack,
        }
    }
}

/// One cell of a row-major style plane overwritten, clipped like the text
/// plane.
pub open spec fn paint_style_cell(sp: Seq<Style>, w: int, x: int, y: int, st: Style) -> Seq<
    Style,
> {
    Seq::new(
        sp.len(),
        |i: int|
            if i / w == y && i % w == x {
                st
            } else {
                sp[i]
            },
    )
}

/// A run of cells painted with one style, left to right from (col, row).
pub open spec fn paint_styles(sp: Seq<Style>, w: int, col: usize, row: usize, k: nat, st: Style)
    -> Seq<Style>
    decreases k,
{
    if k == 0 {
        sp
    } else {
        paint_styles(
            paint_style_cell(sp, w, col as int, row as int, st),
            w,
            (cap_usize(col as nat + 1) as usize),
            row,
            (k - 1) as nat,
            st,
        )
    }
}

/// The style plane of the grid after a command stream: each text command
/// paints the active style under its characters, and no other command
/// touches a cell.
pub open spec fn style_grid_after(
    cmds: Seq<SinkCmd<Style>>,
    sp0: Seq<Style>,
    w: int,
    x0: usize,
    y0: usize,
    s0: Style,
) -> Seq<Style>
    decreases cmds,
{
    if cmds.len() == 0 {
        sp0
    } else {
        let sp = style_grid_after(cmds.drop_last(), sp0, w, x0, y0, s0);
        let pos = cursor_after(cmds.drop_last(), x0, y0);
        match cmds.last() {
            SinkCmd::Text(s) => paint_styles(
                sp,
                w,
                pos.0,
                pos.1,
                s.len(),
                style_after(cmds.drop_last(), s0, Seq::empty()),
            ),
            _ => sp,
        }
    }
}

/// A sink that paints text into a character grid cell by cell. A line break
/// repositions the virtual cursor to the column where the rendering began,
/// one row further down; writing outside the grid is clipped, so this sink
/// never fails.
pub struct TextBufferFormatter {
    pub buf: TextBuffer<Style>,
    pub current_style: Style,
    pub saved_styles: Vec<Style>,
    pub start_column: usize,
    pub current_row: usize,
    pub cursor: (usize, usize),
    pub cmds: Ghost<Seq<SinkCmd<Style>>>,
    pub shape0: Ghost<(usize, usize)>,
    pub origin: Ghost<(usize, usize)>,
    pub init_text: Ghost<Seq<char>>,
    pub init_style: Ghost<Seq<Style>>,
}

impl TextBufferFormatter {
    /// A sink over the given buffer whose rendering begins at (x, y).
    pub fn new(buf: TextBuffer<Style>, x: usize, y: usize) -> (r: Self)
        requires
            buf.wf(),
        ensures
            r.wf(),
            r.sink_cmds() == Seq::<SinkCmd<Style>>::empty(),
            r.style_depth() == 0,
            r.buf == buf,
            r.start_column == x,
            r.current_row == y,
            r.cursor == (x, y),
            r.current_style == Style::Default,
            r.saved_styles@ == Seq::<Style>::empty(),
            r.origin@ == (x, y),
            r.init_text@ == buf.text.data@,
            r.init_style@ == buf.style.data@,
    {
        let r = TextBufferFormatter {
            buf,
            current_style: Style::Default,
            saved_styles: Vec::new(),
            start_column: x,
            current_row: y,
            cursor: (x, y),
            cmds: Ghost(Seq::empty()),
            shape0: Ghost((0, 0)),
            origin: Ghost((x, y)),
            init_text: Ghost(Seq::empty()),
            init_style: Ghost(Seq::empty()),
        };
        let ghost shape = r.buf.text.shape;
        let ghost tp0 = r.buf.text.data@;
        let ghost sp0 = r.buf.style.data@;
        TextBufferFormatter {
            shape0: Ghost(shape),
            init_text: Ghost(tp0),
            init_style: Ghost(sp0),
            ..r
        }
    }

    /// The grid with everything painted so far, consuming the sink.
    pub fn into_buffer(self) -> (r: TextBuffer<Style>)
        requires
            self.wf(),
        ensures
            r == self.buf,
            r.wf(),
    {
        self.buf
    }
}

impl Formatter<Style> for TextBufferFormatter {
    type Error = ();

    /// The grid stays consistent and keeps its shape, and the virtual cursor
    /// always stands where the received commands put it: text advances it,
    /// a line break repositions it to the column where the rendering began,
    /// one row further down.
    open spec fn wf(&self) -> bool {
        &&& self.buf.wf()
        &&& self.buf.text.shape == self.shape0@
        &&& self.start_column == self.origin@.0
        &&& self.cursor == cursor_after(self.cmds@, self.origin@.0, self.origin@.1)
        &&& self.current_row == self.cursor.1
        &&& self.buf.text.data@ == text_grid_after(
            self.cmds@,
            self.init_text@,
            self.shape0@.0 as int,
            self.origin@.0,
            self.origin@.1,
        )
        &&& self.init_text@.len() == self.buf.text.data@.len()
        &&& self.buf.style.data@ == style_grid_after(
            self.cmds@,
            self.init_style@,
            self.shape0@.0 as int,
            self.origin@.0,
            self.origin@.1,
            Style::Default,
        )
        &&& self.init_style@.len() == self.buf.style.data@.len()
        &&& self.current_style == style_after(self.cmds@, Style::Default, Seq::empty())
        &&& self.saved_styles@ == stack_after(self.cmds@, Style::Default, Seq::empty())
    }

    /// Writes are clipped at the grid's edge, never refused.
    open spec fn infallible() -> bool {
        true
    }

    closed spec fn sink_cmds(&self) -> Seq<SinkCmd<Style>> {
        self.cmds@
    }

    closed spec fn style_depth(&self) -> nat {
        self.saved_styles@.len()
    }

    fn write(&mut self, x: &str) -> (r: Result<(), Self::Error>) {
        let n = x.unicode_len();
        let mut i: usize = 0;
        let mut col = self.cursor.0;
        let row = self.cursor.1;
        let ghost w_int = old(self).buf.text.shape.0 as int;
        let ghost tp0 = old(self).buf.text.data@;
        let ghost sp0 = old(self).buf.style.data@;
        proof {
            assert(x@.skip(0) =~= x@);
        }
        while i < n
            invariant
                n == x@.len(),
                i <= n,
                col as nat == cap_usize(old(self).cursor.0 as nat + i as nat),
                w_int == old(self).buf.text.shape.0 as int,
                tp0 == old(self).buf.text.data@,
                row == old(self).cursor.1,
                self.buf.wf(),
                self.buf.text.shape == old(self).buf.text.shape,
                self.buf.text.data@.len() == tp0.len(),
                paint_text(self.buf.text.data@, w_int, col, row, x@.skip(i as int)) == paint_text(
                    tp0,
                    w_int,
                    old(self).cursor.0,
                    row,
                    x@,
                ),
                sp0 == old(self).buf.style.data@,
                self.buf.style.data@.len() == sp0.len(),
                paint_styles(
                    self.buf.style.data@,
                    w_int,
                    col,
                    row,
                    (n - i) as nat,
                    old(self).current_style,
                ) == paint_styles(
                    sp0,
                    w_int,
                    old(self).cursor.0,
                    row,
                    n as nat,
                    old(self).current_style,
                ),
                self.shape0 == old(self).shape0,
                self.origin == old(self).origin,
                self.init_text == old(self).init_text,
                self.init_style == old(self).init_style,
                self.cursor == old(self).cursor,
                self.saved_styles == old(self).saved_styles,
                self.cmds == old(self).cmds,
                self.current_style == old(self).current_style,
                self.start_column == old(self).start_column,
                self.current_row == old(self).current_row,
            decreases n - i,
        {
            let ch = x.get_char(i);
            let ghost tp_before = self.buf.text.data@;
            let ghost sp_before = self.buf.style.data@;
            self.buf.set_char(col, row, ch, self.current_style);
            proof {
                assert(self.buf.text.data@ =~= paint_cell(
                    tp_before,
                    w_int,
                    col as int,
                    row as int,
                    ch,
                ));
                assert(self.buf.style.data@ =~= paint_style_cell(
                    sp_before,
                    w_int,
                    col as int,
                    row as int,
                    old(self).current_style,
                ));
                assert(x@.skip(i as int).drop_first() =~= x@.skip(i as int + 1));
                assert(x@.skip(i as int).first() == x@[i as int]);
            }
            col = sat_add(col, 1);
            i = i + 1;
        }
        proof {
            assert(x@.skip(n as int) =~= Seq::<char>::empty());
        }
        self.cursor = (col, row);
        self.cmds = Ghost(self.cmds@.push(SinkCmd::Text(x@)));
        proof {
            assert(self.cmds@.drop_last() =~= old(self).cmds@);
        }
        Ok(())
    }

    fn set_style(&mut self, style: &Style) {
        self.current_style = *style;
        self.cmds = Ghost(self.cmds@.push(SinkCmd::SetStyle(*style)));
        proof {
            assert(self.cmds@.drop_last() =~= old(self).cmds@);
        }
    }

    fn save_style(&mut self) {
        self.saved_styles.push(self.current_style);
        self.cmds = Ghost(self.cmds@.push(SinkCmd::SaveStyle));
        proof {
            assert(self.cmds@.drop_last() =~= old(self).cmds@);
        }
    }

    fn restore_style(&mut self) {
        match self.saved_styles.pop() {
            Some(style) => {
                self.current_style = style;
            },
            None => {
                proof {
                    assert(false);
                }
            },
        }
        self.cmds = Ghost(self.cmds@.push(SinkCmd::RestoreStyle));
        proof {
            assert(self.cmds@.drop_last() =~= old(self).cmds@);
        }
    }

    fn write_newline(&mut self) -> (r: Result<(), Self::Error>) {
        self.current_row = sat_add(self.current_row, 1);
        self.cursor = (self.start_column, self.current_row);
        self.cmds = Ghost(self.cmds@.push(SinkCmd::Newline));
        proof {
            assert(self.cmds@.drop_last() =~= old(self).cmds@);
        }
        Ok(())
    }
}

/// The width budget a view lays its tree out for: the viewport width, kept
/// one below the machine maximum so the layout engine's exact width
/// comparison stays available.
pub open spec fn view_budget(v: SexprView) -> usize {
    if v.width < usize::MAX {
        v.width
    } else {
        (usize::MAX - 1) as usize
    }
}

impl SexprView {
    /// The overlay tree a frame shows: the tree prepared for the viewport's
    /// width budget, wrapped in the default style at the root, with the node
    /// under the cursor wrapped in the highlight style.
    pub fn overlay(&self) -> (r: Pretty<Style>)
        requires
            self.wf(),
        ensures
            r.pf.max_code_width == view_budget(*self),
            r.pf.default_indent == 2,
            ({
                let prepared = prep(self.expr@, view_budget(*self) as nat);
                let core = get_at(prepared, Seq::empty()).unwrap();
                let styled = replace_at(
                    prepared,
                    Seq::empty(),
                    ExprView::Style(Style::Default, Box::new(core)),
                ).unwrap();
                let node = get_at(styled, self.cursor@).unwrap();
                r.pe@ == replace_at(
                    styled,
                    self.cursor@,
                    ExprView::Style(Style::Highlight, Box::new(node)),
                ).unwrap()
            }),
    {
        let max_width = if self.width < usize::MAX {
            self.width
        } else {
            usize::MAX - 1
        };
        let pf = PrettyFormatter::new(max_width, 2);
        let copy = self.expr.duplicate();
        let pe = pf.pretty(copy);
        proof {
            lemma_get_empty(pe.pe@);
        }
        let empty_path: Vec<usize> = Vec::new();
        let ghost prepared = pe.pe@;
        let pe = match pe.with_style(&empty_path, Style::Default) {
            Some(styled) => styled,
            None => {
                proof {
                    assert(false);
                }
                Pretty { pf, pe: PrettyExpr::empty_list() }
            },
        };
        proof {
            lemma_get_with_root_style(prepared, Style::Default, self.cursor@);
            lemma_prep_preserves_get(self.expr@, max_width as nat, self.cursor@);
        }
        match pe.with_style(&self.cursor, Style::Highlight) {
            Some(styled) => styled,
            None => {
                proof {
                    assert(false);
                }
                Pretty { pf, pe: PrettyExpr::empty_list() }
            },
        }
    }
}

impl Item for SexprView {
    open spec fn inv(&self) -> bool {
        self.wf()
    }

    fn size(&self) -> (usize, usize) {
        (self.width, self.height)
    }

    fn resize(&mut self, width: usize, height: usize) {
        self.width = width;
        self.height = height;
    }

    /// Lays the tree out for the current viewport width, highlights the node
    /// under the cursor, and paints the result into the buffer at (x, y):
    /// the sink receives exactly the emission of `overlay`, beginning at
    /// column x of row y.
    fn draw(&self, buf: &mut TextBuffer<Style>, x: usize, y: usize) {
        let pe = self.overlay();
        let mut local = TextBuffer::new(0, 0);
        core::mem::swap(&mut local, buf);
        let mut cf = TextBufferFormatter::new(local, x, y);
        let _ = pe.write(&mut cf);
        let mut local = cf.into_buffer();
        core::mem::swap(&mut local, buf);
    }
}

} // verus!
