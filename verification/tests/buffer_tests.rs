use sxedit::styles::Style;
use sxedit::textbuffer::{TextBuffer, Vec2D};
use sxedit::ui::{Framed, Item};
use sxedit::sexpr_view::SexprView;
use sxedit::sxfmt::PrettyExpr;

fn cell(buf: &TextBuffer<Style>, x: usize, y: usize) -> char {
    *buf.text.get(x, y)
}

#[test]
fn grid_set_and_get_round_trip() {
    let mut grid: Vec2D<char> = Vec2D::new(4, 3);
    grid.fill('.');
    grid.set(2, 1, 'x');
    assert_eq!(*grid.get(2, 1), 'x');
    assert_eq!(*grid.get(1, 1), '.');
    assert_eq!(grid.width(), 4);
}

#[test]
fn grid_from_vec_keeps_row_major_order() {
    let data = vec!['a', 'b', 'c', 'd', 'e', 'f'];
    let grid = Vec2D::from_vec(3, 2, data);
    assert_eq!(*grid.get(0, 0), 'a');
    assert_eq!(*grid.get(2, 0), 'c');
    assert_eq!(*grid.get(0, 1), 'd');
    assert_eq!(*grid.get(2, 1), 'f');
}

#[test]
fn grid_set_rect_fills_half_open_rectangle() {
    let mut grid: Vec2D<char> = Vec2D::new(4, 4);
    grid.fill('.');
    grid.set_rect(1, 1, 3, 3, '#');
    assert_eq!(*grid.get(0, 0), '.');
    assert_eq!(*grid.get(1, 1), '#');
    assert_eq!(*grid.get(2, 2), '#');
    assert_eq!(*grid.get(3, 3), '.');
    assert_eq!(*grid.get(3, 1), '.');
}

#[test]
fn buffer_clear_and_lines() {
    let mut buf: TextBuffer<Style> = TextBuffer::new(5, 4);
    buf.clear('.', Style::Background);
    buf.draw_hline(1, 1, 3, '-', Style::Frame);
    buf.draw_vline(2, 0, 3, '|', Style::Frame);
    assert_eq!(cell(&buf, 0, 1), '.');
    assert_eq!(cell(&buf, 1, 1), '-');
    assert_eq!(cell(&buf, 3, 1), '-');
    assert_eq!(cell(&buf, 4, 1), '.');
    assert_eq!(cell(&buf, 2, 0), '|');
    assert_eq!(cell(&buf, 2, 3), '|');
    // the vertical line was drawn last and wins at the crossing
    assert_eq!(cell(&buf, 2, 1), '|');
}

#[test]
fn buffer_set_char_clips_outside() {
    let mut buf: TextBuffer<Style> = TextBuffer::new(2, 2);
    buf.clear('.', Style::Background);
    buf.set_char(5, 0, 'x', Style::Default);
    buf.set_char(0, 9, 'x', Style::Default);
    for y in 0..2 {
        for x in 0..2 {
            assert_eq!(cell(&buf, x, y), '.');
        }
    }
}

#[test]
fn buffer_fill_rect_sets_styles_too() {
    let mut buf: TextBuffer<Style> = TextBuffer::new(3, 3);
    buf.clear('.', Style::Background);
    buf.fill_rect(0, 0, 2, 2, '#', Style::Highlight);
    assert_eq!(cell(&buf, 0, 0), '#');
    assert_eq!(*buf.style.get(0, 0), Style::Highlight);
    assert_eq!(*buf.style.get(2, 2), Style::Background);
}

struct Collector {
    cells: Vec<(char, Style)>,
}

impl sxedit::textbuffer::RenderTarget for Collector {
    type Error = ();
    type Style = Style;

    // ghost members of the trait; never executed
    fn wf(&self) -> bool {
        unreachable!()
    }

    fn infallible() -> bool {
        unreachable!()
    }

    fn frame(&self) -> vstd::prelude::Seq<(char, Style)> {
        unreachable!()
    }

    fn prepare(&mut self) -> Result<(), ()> {
        self.cells.clear();
        Ok(())
    }

    fn write_char(&mut self, ch: char, s: &Style) -> Result<(), ()> {
        self.cells.push((ch, *s));
        Ok(())
    }

    fn finalize(&mut self) -> Result<(), ()> {
        Ok(())
    }
}

#[test]
fn render_hands_over_every_cell_in_row_major_order() {
    let mut buf: TextBuffer<Style> = TextBuffer::new(2, 2);
    buf.clear('.', Style::Background);
    buf.set_char(1, 0, 'a', Style::Default);
    buf.set_char(0, 1, 'b', Style::Default);
    let mut target = Collector { cells: Vec::new() };
    assert!(buf.render(&mut target).is_ok());
    let chars: Vec<char> = target.cells.iter().map(|c| c.0).collect();
    assert_eq!(chars, vec!['.', 'a', 'b', '.']);
}

#[test]
fn drawing_a_view_paints_the_rendered_text() {
    let expr: PrettyExpr<Style> = PrettyExpr::list(vec![
        PrettyExpr::Stat("if"),
        PrettyExpr::Stat("q"),
        PrettyExpr::Stat("a"),
        PrettyExpr::Stat("e"),
    ]);
    let view = SexprView::new(expr, 25, 10);
    let mut buf: TextBuffer<Style> = TextBuffer::new(20, 5);
    buf.clear(' ', Style::Background);
    view.draw(&mut buf, 0, 0);
    let mut line = String::new();
    for x in 0..10 {
        line.push(cell(&buf, x, 0));
    }
    assert_eq!(line, "(if q a e)");
    // the node under the cursor (the whole expression) is highlighted
    assert_eq!(*buf.style.get(0, 0), Style::Highlight);
}

#[test]
fn drawing_an_exploded_view_uses_rows() {
    let expr: PrettyExpr<Style> = PrettyExpr::list(vec![
        PrettyExpr::Stat("branchon"),
        PrettyExpr::Stat("question"),
        PrettyExpr::Stat("answer"),
        PrettyExpr::Stat("else"),
    ]);
    let view = SexprView::new(expr, 15, 10);
    let mut buf: TextBuffer<Style> = TextBuffer::new(20, 6);
    buf.clear(' ', Style::Background);
    view.draw(&mut buf, 3, 1);
    let mut first = String::new();
    for x in 3..12 {
        first.push(cell(&buf, x, 1));
    }
    assert_eq!(first, "(branchon");
    let mut second = String::new();
    for x in 3..13 {
        second.push(cell(&buf, x, 2));
    }
    // the break indents back to the start column, not to column zero
    assert_eq!(second, "  question");
}

#[test]
fn framed_widget_draws_a_border() {
    let expr: PrettyExpr<Style> = PrettyExpr::Atom("hi".to_string());
    let view = SexprView::new(expr, 4, 1);
    let framed = Framed::new(view);
    let mut buf: TextBuffer<Style> = TextBuffer::new(12, 6);
    buf.clear(' ', Style::Background);
    framed.draw(&mut buf, 1, 1);
    assert_eq!(cell(&buf, 1, 1), '╔');
    assert_eq!(cell(&buf, 2, 1), '═');
    assert_eq!(cell(&buf, 1, 2), '║');
    assert_eq!(cell(&buf, 2, 2), 'h');
    assert_eq!(cell(&buf, 3, 2), 'i');
}

#[test]
fn framed_resize_reaches_the_inner_item() {
    let expr: PrettyExpr<Style> = PrettyExpr::Atom("hi".to_string());
    let view = SexprView::new(expr, 4, 1);
    let mut framed = Framed::new(view);
    framed.resize(10, 7);
    assert_eq!(framed.inner.size(), (8, 5));
    assert_eq!(framed.size(), (10, 7));
}

#[test]
fn overlay_is_the_prepared_styled_tree() {
    let expr: PrettyExpr<Style> = PrettyExpr::list(vec![
        PrettyExpr::Stat("if"),
        PrettyExpr::Stat("q"),
        PrettyExpr::Stat("a"),
        PrettyExpr::Stat("e"),
    ]);
    let mut view = SexprView::new(expr, 25, 10);
    view.cursor = vec![1];
    let overlay = view.overlay();
    // styles are invisible in the rendered text; the layout is the tree's
    assert_eq!(overlay.to_text(), "(if q a e)");
    // the root carries the default style, the addressed node the highlight
    match &overlay.pe {
        PrettyExpr::Style(Style::Default, _) => {},
        _ => panic!("the overlay root must carry the default style"),
    }
    match overlay.pe.get(&vec![1]) {
        Some(PrettyExpr::Stat(s)) => assert_eq!(*s, "q"),
        _ => panic!("the overlay must keep the tree addressable"),
    }
}
