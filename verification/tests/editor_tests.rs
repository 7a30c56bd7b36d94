use sxedit::events::{Event, EventHandler};
use sxedit::sexpr_view::SexprView;
use sxedit::styles::Style;
use sxedit::sxfmt::PrettyExpr;

fn atom(s: &str) -> PrettyExpr<Style> {
    PrettyExpr::Atom(s.to_string())
}

fn stat(s: &'static str) -> PrettyExpr<Style> {
    PrettyExpr::Stat(s)
}

fn list(xs: Vec<PrettyExpr<Style>>) -> PrettyExpr<Style> {
    PrettyExpr::list(xs)
}

/// `((x) (a b c) (y))`
fn three_lists() -> PrettyExpr<Style> {
    list(vec![
        list(vec![stat("x")]),
        list(vec![stat("a"), stat("b"), stat("c")]),
        list(vec![stat("y")]),
    ])
}

#[test]
fn sibling_move_wraps_around() {
    let mut view = SexprView::new(three_lists(), 25, 10);
    view.cursor = vec![1, 2];
    view.move_cursor_in_list(1);
    assert_eq!(view.cursor, vec![1, 0]);
}

#[test]
fn sibling_move_wraps_backwards() {
    let mut view = SexprView::new(three_lists(), 25, 10);
    view.cursor = vec![1, 0];
    view.move_cursor_in_list(-1);
    assert_eq!(view.cursor, vec![1, 2]);
}

#[test]
fn full_cycle_returns_to_start() {
    let mut view = SexprView::new(three_lists(), 25, 10);
    view.cursor = vec![1, 1];
    for _ in 0..3 {
        view.move_cursor_in_list(1);
    }
    assert_eq!(view.cursor, vec![1, 1]);
}

#[test]
fn navigation_into_and_out_of_lists() {
    let mut view = SexprView::new(three_lists(), 25, 10);
    view.move_cursor_into_list();
    assert_eq!(view.cursor, vec![0]);
    view.move_cursor_into_list();
    assert_eq!(view.cursor, vec![0, 0]);
    // a label has no children: entering it is a no-op
    view.move_cursor_into_list();
    assert_eq!(view.cursor, vec![0, 0]);
    view.move_cursor_out_of_list();
    view.move_cursor_out_of_list();
    assert_eq!(view.cursor, Vec::<usize>::new());
    // at the root, moving out stays at the root
    view.move_cursor_out_of_list();
    assert_eq!(view.cursor, Vec::<usize>::new());
}

#[test]
fn append_into_empty_list_then_delete_restores_empty_list() {
    let mut view = SexprView::new(list(vec![]), 25, 10);
    view.append_at_cursor("x");
    // the cursor descended onto the fresh one-letter atom
    assert_eq!(view.cursor, vec![0]);
    match view.expr.get(&view.cursor) {
        Some(PrettyExpr::Atom(s)) => assert_eq!(s, "x"),
        _ => panic!("expected a fresh atom"),
    }
    view.delete_at_cursor();
    // the node under the cursor is an empty list again, not an empty atom
    match view.expr.get(&view.cursor) {
        Some(node) => {
            assert!(!node.is_atom());
            assert_eq!(node.len(), 0);
        },
        None => panic!("cursor no longer resolves"),
    }
}

#[test]
fn append_extends_an_atom() {
    let mut view = SexprView::new(atom("ab"), 25, 10);
    view.append_at_cursor("c");
    match view.expr.get(&view.cursor) {
        Some(PrettyExpr::Atom(s)) => assert_eq!(s, "abc"),
        _ => panic!("expected the atom abc"),
    }
}

#[test]
fn delete_shrinks_an_atom() {
    let mut view = SexprView::new(atom("ab"), 25, 10);
    view.delete_at_cursor();
    match view.expr.get(&view.cursor) {
        Some(PrettyExpr::Atom(s)) => assert_eq!(s, "a"),
        _ => panic!("expected the atom a"),
    }
}

#[test]
fn delete_element_clamps_cursor_to_survivor() {
    let mut view = SexprView::new(three_lists(), 25, 10);
    view.cursor = vec![2];
    view.delete_cursor_element();
    // the last element was removed: the cursor is clamped to the new last
    assert_eq!(view.cursor, vec![1]);
    assert!(view.expr.is_valid_path(&view.cursor));
    match view.expr.get(&vec![]) {
        Some(node) => assert_eq!(node.len(), 2),
        None => panic!("root must resolve"),
    }
}

#[test]
fn delete_element_keeps_index_when_later_sibling_survives() {
    let mut view = SexprView::new(three_lists(), 25, 10);
    view.cursor = vec![0];
    view.delete_cursor_element();
    assert_eq!(view.cursor, vec![0]);
    assert!(view.expr.is_valid_path(&view.cursor));
}

#[test]
fn delete_last_element_selects_emptied_parent() {
    let mut view = SexprView::new(three_lists(), 25, 10);
    view.cursor = vec![0, 0];
    view.delete_cursor_element();
    assert_eq!(view.cursor, vec![0]);
    match view.expr.get(&view.cursor) {
        Some(node) => assert_eq!(node.len(), 0),
        None => panic!("cursor no longer resolves"),
    }
}

#[test]
fn insert_after_cursor_adds_placeholder_and_selects_it() {
    let mut view = SexprView::new(three_lists(), 25, 10);
    view.cursor = vec![1, 0];
    view.insert_element_after_cursor();
    assert_eq!(view.cursor, vec![1, 1]);
    match view.expr.get(&view.cursor) {
        Some(node) => {
            assert!(!node.is_atom());
            assert_eq!(node.len(), 0);
        },
        None => panic!("cursor no longer resolves"),
    }
    match view.expr.get(&vec![1]) {
        Some(node) => assert_eq!(node.len(), 4),
        None => panic!("parent must resolve"),
    }
}

#[test]
fn insert_inside_quotation_shifts_outward() {
    // (a 'b c): the quotation is a unit, so inserting at its inside splices
    // next to the quotation itself
    let tree = list(vec![stat("a"), PrettyExpr::quote(stat("b")), stat("c")]);
    let mut view = SexprView::new(tree, 25, 10);
    view.cursor = vec![1, 0];
    view.insert_element_after_cursor();
    assert_eq!(view.cursor, vec![2]);
    match view.expr.get(&vec![]) {
        Some(node) => assert_eq!(node.len(), 4),
        None => panic!("root must resolve"),
    }
    match view.expr.get(&view.cursor) {
        Some(node) => assert_eq!(node.len(), 0),
        None => panic!("cursor no longer resolves"),
    }
}

#[test]
fn wrap_descends_into_the_new_list() {
    let mut view = SexprView::new(atom("v"), 25, 10);
    view.wrap_cursor_in_list();
    assert_eq!(view.cursor, vec![0]);
    match view.expr.get(&view.cursor) {
        Some(PrettyExpr::Atom(s)) => assert_eq!(s, "v"),
        _ => panic!("wrapping must keep the content"),
    }
    match view.expr.get(&vec![]) {
        Some(node) => assert_eq!(node.len(), 1),
        None => panic!("root must resolve"),
    }
}

#[test]
fn unwrap_restores_wrapped_node() {
    let mut view = SexprView::new(atom("v"), 25, 10);
    view.wrap_cursor_in_list();
    view.move_cursor_out_of_list();
    view.unwrap_unary_list_at_cursor();
    match view.expr.get(&vec![]) {
        Some(PrettyExpr::Atom(s)) => assert_eq!(s, "v"),
        _ => panic!("unwrap must restore the atom"),
    }
}

#[test]
fn unwrap_leaves_other_shapes_alone() {
    let mut view = SexprView::new(three_lists(), 25, 10);
    view.unwrap_unary_list_at_cursor();
    match view.expr.get(&vec![]) {
        Some(node) => assert_eq!(node.len(), 3),
        None => panic!("root must resolve"),
    }
}

#[test]
fn quote_wraps_and_unwrap_unwraps_quotation() {
    let mut view = SexprView::new(atom("v"), 25, 10);
    view.quote_cursor();
    match view.expr.get(&vec![]) {
        Some(node) => {
            assert!(!node.is_atom());
            assert_eq!(node.len(), 1);
        },
        None => panic!("root must resolve"),
    }
    view.unwrap_unary_list_at_cursor();
    match view.expr.get(&vec![]) {
        Some(PrettyExpr::Atom(s)) => assert_eq!(s, "v"),
        _ => panic!("unwrap must restore the quoted atom"),
    }
}

#[test]
fn events_drive_the_editor() {
    let mut view = SexprView::new(list(vec![]), 25, 10);
    assert!(view.handle_event(&Event::Edit('h')));
    assert!(view.handle_event(&Event::Edit('i')));
    match view.expr.get(&view.cursor) {
        Some(PrettyExpr::Atom(s)) => assert_eq!(s, "hi"),
        _ => panic!("typing must build an atom"),
    }
    assert!(view.handle_event(&Event::EditBackspace));
    match view.expr.get(&view.cursor) {
        Some(PrettyExpr::Atom(s)) => assert_eq!(s, "h"),
        _ => panic!("backspace must shrink the atom"),
    }
    assert!(view.handle_event(&Event::NavLeft));
    assert_eq!(view.cursor, Vec::<usize>::new());
    assert!(view.handle_event(&Event::NavRight));
    assert_eq!(view.cursor, vec![0]);
    assert!(!view.handle_event(&Event::Terminate));
    assert!(!view.handle_event(&Event::Resize(80, 24)));
    assert!(!view.handle_event(&Event::Unknown));
}

#[test]
fn cursor_stays_valid_under_random_walk_of_deletes() {
    let mut view = SexprView::new(three_lists(), 25, 10);
    view.cursor = vec![1, 1];
    for _ in 0..6 {
        view.delete_cursor_element();
        assert!(view.expr.is_valid_path(&view.cursor));
    }
}

#[test]
fn every_editing_event_is_consumed_and_acts() {
    // '(' wraps and descends; ')' moves back out; backspace edits text
    let mut view = SexprView::new(atom("v"), 25, 10);
    assert!(view.handle_event(&Event::Edit('(')));
    assert_eq!(view.cursor, vec![0]);
    assert!(view.handle_event(&Event::Edit(')')));
    assert_eq!(view.cursor, Vec::<usize>::new());
    assert!(view.handle_event(&Event::Edit('\'')));
    assert_eq!(view.cursor, vec![0]);
    match view.expr.get(&vec![]) {
        Some(node) => {
            assert!(!node.is_atom());
            assert_eq!(node.len(), 1);
        },
        None => panic!("root must resolve"),
    }
}
