use sxedit::sxfmt::{Pretty, PrettyExpr, PrettyFormatter};

fn atom(s: &str) -> PrettyExpr<()> {
    PrettyExpr::Atom(s.to_string())
}

fn stat(s: &'static str) -> PrettyExpr<()> {
    PrettyExpr::Stat(s)
}

fn list(xs: Vec<PrettyExpr<()>>) -> PrettyExpr<()> {
    PrettyExpr::list(xs)
}

fn let_example() -> PrettyExpr<()> {
    list(vec![
        stat("let"),
        list(vec![
            list(vec![stat("a"), atom("1")]),
            list(vec![stat("b"), atom("2")]),
            list(vec![stat("c"), atom("3")]),
        ]),
        list(vec![atom("+"), stat("a"), stat("b")]),
    ])
}

#[test]
fn tests() {
    assert_eq!(atom("abc").inline_width(), 3);
    assert_eq!(stat("abcde").inline_width(), 5);
    assert_eq!(list(vec![]).inline_width(), 2);
    assert_eq!(list(vec![stat("abc")]).inline_width(), 5);
    assert_eq!(list(vec![stat("a"), stat("b"), stat("c")]).inline_width(), 7);
    let two_bindings = list(vec![
        stat("let"),
        list(vec![
            list(vec![stat("a"), atom("1")]),
            list(vec![stat("b"), atom("2")]),
        ]),
        list(vec![atom("+"), stat("a"), stat("b")]),
    ]);
    assert_eq!(two_bindings.inline_width(), 27);

    let pf = PrettyFormatter::new(15, 2);

    assert_eq!(pf.pretty(atom("abc")).to_text(), "abc");
    assert_eq!(
        pf.pretty(list(vec![stat("if"), stat("q"), stat("a"), stat("e")])).to_text(),
        "(if q a e)"
    );
    assert_eq!(
        pf.pretty(list(vec![
            stat("branchon"),
            stat("question"),
            stat("answer"),
            stat("else"),
        ]))
        .to_text(),
        "(branchon\n  question\n  answer\n  else)"
    );
    assert_eq!(
        pf.pretty(list(vec![
            stat("branchon"),
            list(vec![stat("a"), stat("b")]),
            list(vec![stat("c"), stat("d")]),
            list(vec![stat("e"), stat("f")]),
        ]))
        .to_text(),
        "(branchon\n  (a b)\n  (c d)\n  (e f))"
    );
    assert_eq!(
        pf.pretty(list(vec![
            stat("long_name"),
            list(vec![
                stat("other_long_name"),
                list(vec![stat("if"), stat("q"), stat("a"), stat("e")]),
            ]),
        ]))
        .to_text(),
        "(long_name\n  (other_long_name\n    (if q a e)))"
    );
    assert_eq!(
        pf.pretty(let_example()).to_text(),
        "(let\n  ((a 1)\n   (b 2)\n   (c 3))\n  (+ a b))"
    );
}

#[test]
fn styled_node_has_inner_width() {
    let plain = list(vec![stat("a"), stat("b"), stat("c")]);
    let styled = PrettyExpr::styled((), list(vec![stat("a"), stat("b"), stat("c")]));
    assert_eq!(styled.inline_width(), plain.inline_width());
    let styled_atom = PrettyExpr::styled((), atom("word"));
    assert_eq!(styled_atom.inline_width(), 4);
}

#[test]
fn prepare_is_idempotent() {
    let pf = PrettyFormatter::new(15, 2);
    let once = pf.prepare(let_example());
    let twice = pf.prepare(pf.prepare(let_example()));
    let text_once = Pretty {
        pf: PrettyFormatter::new(15, 2),
        pe: once,
    }
    .to_text();
    let text_twice = Pretty {
        pf: PrettyFormatter::new(15, 2),
        pe: twice,
    }
    .to_text();
    assert_eq!(text_once, text_twice);
    assert_eq!(text_once, "(let\n  ((a 1)\n   (b 2)\n   (c 3))\n  (+ a b))");
}

#[test]
fn fitting_list_stays_on_one_line() {
    let pf = PrettyFormatter::new(15, 2);
    let e = list(vec![stat("if"), stat("q"), stat("a"), stat("e")]);
    assert!(e.inline_width() <= 15);
    let text = pf.pretty(e).to_text();
    assert!(!text.contains('\n'));
    assert_eq!(text, "(if q a e)");
}

#[test]
fn wide_list_breaks_before_every_later_child() {
    let pf = PrettyFormatter::new(15, 2);
    let e = list(vec![
        stat("branchon"),
        stat("question"),
        stat("answer"),
        stat("else"),
    ]);
    assert!(e.inline_width() > 15);
    let text = pf.pretty(e).to_text();
    // four children: a break in front of each child after the first
    assert_eq!(text.matches('\n').count(), 3);
    let lines: Vec<&str> = text.split('\n').collect();
    assert_eq!(lines, vec!["(branchon", "  question", "  answer", "  else)"]);
}

#[test]
fn quoted_node_renders_as_unit() {
    let pf = PrettyFormatter::new(15, 2);
    let q = PrettyExpr::quote(stat("x"));
    assert_eq!(q.inline_width(), 3);
    assert_eq!(pf.pretty(q).to_text(), "(x)");
}

#[test]
fn empty_list_renders_and_measures() {
    let pf = PrettyFormatter::new(15, 2);
    assert_eq!(list(vec![]).inline_width(), 2);
    assert_eq!(pf.pretty(list(vec![])).to_text(), "()");
}

#[test]
fn style_scopes_do_not_change_text() {
    let pf = PrettyFormatter::new(15, 2);
    let styled = list(vec![
        stat("if"),
        PrettyExpr::styled((), stat("q")),
        stat("a"),
        stat("e"),
    ]);
    assert_eq!(pf.pretty(styled).to_text(), "(if q a e)");
}

#[test]
fn with_style_fails_outside_the_tree() {
    let pf = PrettyFormatter::new(15, 2);
    let p = pf.pretty(list(vec![stat("a"), stat("b")]));
    assert!(p.with_style(&vec![5], ()).is_none());
}

#[test]
fn get_resolves_paths_through_wrappers() {
    let tree: PrettyExpr<()> = list(vec![
        stat("head"),
        PrettyExpr::styled((), list(vec![atom("x"), atom("y")])),
    ]);
    assert!(tree.is_valid_path(&vec![]));
    assert!(tree.is_valid_path(&vec![1]));
    assert!(tree.is_valid_path(&vec![1, 1]));
    assert!(!tree.is_valid_path(&vec![2]));
    assert!(!tree.is_valid_path(&vec![0, 0]));
    match tree.get(&vec![1, 1]) {
        Some(PrettyExpr::Atom(s)) => assert_eq!(s, "y"),
        _ => panic!("expected the atom y"),
    }
}

#[test]
fn set_at_replaces_and_reports_invalid_paths() {
    let mut tree: PrettyExpr<()> = list(vec![stat("head"), atom("x")]);
    assert!(tree.set_at(&vec![1], atom("z")));
    match tree.get(&vec![1]) {
        Some(PrettyExpr::Atom(s)) => assert_eq!(s, "z"),
        _ => panic!("expected the atom z"),
    }
    assert!(!tree.set_at(&vec![7], atom("w")));
    match tree.get(&vec![1]) {
        Some(PrettyExpr::Atom(s)) => assert_eq!(s, "z"),
        _ => panic!("tree changed by a failed replacement"),
    }
}
