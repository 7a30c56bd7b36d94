//! The ghost counterpart of the expression tree, and the mathematical
//! definitions that the layout engine and the editor are specified against:
//! inline widths, path lookup and replacement, layout preparation, and the
//! command sequence a prepared tree emits into a sink.

use vstd::prelude::*;

verus! {

/// Ghost mirror of an expression tree. Atoms and labels carry their text as
/// character sequences; lists carry their children in order; style and
/// quotation wrappers carry the wrapped node.
pub enum ExprView<T> {
    Atom(Seq<char>),
    Stat(Seq<char>),
    Inline(Seq<ExprView<T>>),
    Expand(Seq<ExprView<T>>),
    Style(T, Box<ExprView<T>>),
    Quote(Box<ExprView<T>>),
}

/// One abstract instruction sent to an output sink: literal text, a style
/// change, a save/restore of the style stack, or a line break.
pub enum SinkCmd<T> {
    Text(Seq<char>),
    SetStyle(T),
    SaveStyle,
    RestoreStyle,
    Newline,
}

/// `n` capped at the largest value a `usize` holds.
pub open spec fn cap_usize(n: nat) -> nat {
    if n > usize::MAX {
        usize::MAX as nat
    } else {
        n
    }
}

/// Sum of the inline widths of a sequence of nodes.
pub open spec fn widths_sum<T>(xs: Seq<ExprView<T>>) -> nat
    decreases xs,
{
    if xs.len() == 0 {
        0
    } else {
        widths_sum(xs.drop_last()) + width_of(xs.last())
    }
}

/// The number of characters a node occupies when rendered on a single line:
/// an atom or label counts its characters; a list counts two parentheses,
/// its children, and one separating space per adjacent pair; a style wrapper
/// is invisible; a quotation renders as a one-element list.
pub open spec fn width_of<T>(m: ExprView<T>) -> nat
    decreases m,
{
    match m {
        ExprView::Atom(s) => s.len(),
        ExprView::Stat(s) => s.len(),
        ExprView::Inline(xs) => 2 + widths_sum(xs) + if xs.len() < 2 {
            0nat
        } else {
            (xs.len() - 1) as nat
        },
        ExprView::Expand(xs) => 2 + widths_sum(xs) + if xs.len() < 2 {
            0nat
        } else {
            (xs.len() - 1) as nat
        },
        ExprView::Style(_, x) => width_of(*x),
        ExprView::Quote(x) => 2 + width_of(*x),
    }
}

/// Whether a node is a leaf (atom or label), looking through style wrappers.
pub open spec fn is_atomic<T>(m: ExprView<T>) -> bool
    decreases m,
{
    match m {
        ExprView::Atom(_) => true,
        ExprView::Stat(_) => true,
        ExprView::Inline(_) => false,
        ExprView::Expand(_) => false,
        ExprView::Style(_, x) => is_atomic(*x),
        ExprView::Quote(_) => false,
    }
}

/// The number of addressable children of a node: leaves have none, lists have
/// their elements, a quotation has exactly one, and a style wrapper is
/// transparent.
pub open spec fn len_of<T>(m: ExprView<T>) -> nat
    decreases m,
{
    match m {
        ExprView::Atom(_) => 0,
        ExprView::Stat(_) => 0,
        ExprView::Inline(xs) => xs.len(),
        ExprView::Expand(xs) => xs.len(),
        ExprView::Style(_, x) => len_of(*x),
        ExprView::Quote(_) => 1,
    }
}

/// The node addressed by a path of child indices, or `None` if any index is
/// out of range or the path descends into a leaf. Style wrappers do not
/// consume a path segment, and the returned node is never itself a style
/// wrapper at its root.
pub open spec fn get_at<T>(m: ExprView<T>, path: Seq<usize>) -> Option<ExprView<T>>
    decreases m,
{
    match m {
        ExprView::Style(_, x) => get_at(*x, path),
        ExprView::Atom(_) => if path.len() == 0 {
            Some(m)
        } else {
            None
        },
        ExprView::Stat(_) => if path.len() == 0 {
            Some(m)
        } else {
            None
        },
        ExprView::Inline(xs) => if path.len() == 0 {
            Some(m)
        } else if path[0] < xs.len() {
            get_at(xs[path[0] as int], path.drop_first())
        } else {
            None
        },
        ExprView::Expand(xs) => if path.len() == 0 {
            Some(m)
        } else if path[0] < xs.len() {
            get_at(xs[path[0] as int], path.drop_first())
        } else {
            None
        },
        ExprView::Quote(x) => if path.len() == 0 {
            Some(m)
        } else if path[0] == 0 {
            get_at(*x, path.drop_first())
        } else {
            None
        },
    }
}

/// The tree with the node addressed by `path` replaced by `n`, or `None` when
/// the path does not resolve. Style wrappers along the path are preserved.
pub open spec fn replace_at<T>(m: ExprView<T>, path: Seq<usize>, n: ExprView<T>) -> Option<
    ExprView<T>,
>
    decreases m,
{
    match m {
        ExprView::Style(s, x) => match replace_at(*x, path, n) {
            Some(y) => Some(ExprView::Style(s, Box::new(y))),
            None => None,
        },
        ExprView::Atom(_) => if path.len() == 0 {
            Some(n)
        } else {
            None
        },
        ExprView::Stat(_) => if path.len() == 0 {
            Some(n)
        } else {
            None
        },
        ExprView::Inline(xs) => if path.len() == 0 {
            Some(n)
        } else if path[0] < xs.len() {
            match replace_at(xs[path[0] as int], path.drop_first(), n) {
                Some(y) => Some(ExprView::Inline(xs.update(path[0] as int, y))),
                None => None,
            }
        } else {
            None
        },
        ExprView::Expand(xs) => if path.len() == 0 {
            Some(n)
        } else if path[0] < xs.len() {
            match replace_at(xs[path[0] as int], path.drop_first(), n) {
                Some(y) => Some(ExprView::Expand(xs.update(path[0] as int, y))),
                None => None,
            }
        } else {
            None
        },
        ExprView::Quote(x) => if path.len() == 0 {
            Some(n)
        } else if path[0] == 0 {
            match replace_at(*x, path.drop_first(), n) {
                Some(y) => Some(ExprView::Quote(Box::new(y))),
                None => None,
            }
        } else {
            None
        },
    }
}

/// One preparation step applied to every child.
pub open spec fn prep_seq<T>(xs: Seq<ExprView<T>>, max: nat) -> Seq<ExprView<T>>
    decreases xs,
{
    if xs.len() == 0 {
        Seq::empty()
    } else {
        prep_seq(xs.drop_last(), max).push(prep(xs.last(), max))
    }
}

/// Layout preparation: an inline list whose inline width exceeds `max` is
/// rewritten to an exploded list and its children are prepared in turn; an
/// inline list that fits is kept as it stands; an already exploded list is
/// never re-collapsed; wrappers are prepared inside.
pub open spec fn prep<T>(m: ExprView<T>, max: nat) -> ExprView<T>
    decreases m,
{
    match m {
        ExprView::Atom(_) => m,
        ExprView::Stat(_) => m,
        ExprView::Inline(xs) => if width_of(m) <= max {
            m
        } else {
            ExprView::Expand(prep_seq(xs, max))
        },
        ExprView::Expand(_) => m,
        ExprView::Style(s, x) => ExprView::Style(s, Box::new(prep(*x, max))),
        ExprView::Quote(x) => ExprView::Quote(Box::new(prep(*x, max))),
    }
}

/// `n` space characters.
pub open spec fn spaces(n: nat) -> Seq<char>
    decreases n,
{
    if n == 0 {
        Seq::empty()
    } else {
        spaces((n - 1) as nat).push(' ')
    }
}

/// The commands emitted for the children of an inline list after the first:
/// each child is preceded by a single space.
pub open spec fn emit_inline_tail<T>(xs: Seq<ExprView<T>>, di: nat) -> Seq<SinkCmd<T>>
    decreases xs,
{
    if xs.len() == 0 {
        Seq::empty()
    } else {
        emit_inline_tail(xs.drop_last(), di) + seq![SinkCmd::Text(seq![' '])] + emit(
            xs.last(),
            0,
            di,
        )
    }
}

/// The commands emitted for the children of an exploded list after the first:
/// each child is preceded by a line break and indentation to column `ind`.
pub open spec fn emit_expanded_tail<T>(xs: Seq<ExprView<T>>, ind: nat, di: nat) -> Seq<SinkCmd<T>>
    decreases xs,
{
    if xs.len() == 0 {
        Seq::empty()
    } else {
        emit_expanded_tail(xs.drop_last(), ind, di) + seq![
            SinkCmd::Newline,
            SinkCmd::Text(spaces(ind)),
        ] + emit(xs.last(), ind, di)
    }
}

/// The command sequence a node sends to a sink when written at indentation
/// level `ind` with configured indent step `di`.
pub open spec fn emit<T>(m: ExprView<T>, ind: nat, di: nat) -> Seq<SinkCmd<T>>
    decreases m,
{
    match m {
        ExprView::Atom(s) => seq![SinkCmd::Text(s)],
        ExprView::Stat(s) => seq![SinkCmd::Text(s)],
        ExprView::Inline(xs) => if xs.len() == 0 {
            seq![SinkCmd::Text(seq!['(']), SinkCmd::Text(seq![')'])]
        } else {
            seq![SinkCmd::Text(seq!['('])] + emit(xs.first(), 0, di) + emit_inline_tail(
                xs.drop_first(),
                di,
            ) + seq![SinkCmd::Text(seq![')'])]
        },
        ExprView::Expand(xs) => if xs.len() == 0 {
            seq![SinkCmd::Text(seq!['(']), SinkCmd::Text(seq![')'])]
        } else if xs.len() == 1 {
            seq![SinkCmd::Text(seq!['('])] + emit(xs.first(), ind, di) + seq![
                SinkCmd::Text(seq![')']),
            ]
        } else {
            seq![SinkCmd::Text(seq!['('])] + emit(xs.first(), expand_indent(xs, ind, di), di)
                + emit_expanded_tail(xs.drop_first(), expand_indent(xs, ind, di), di) + seq![
                SinkCmd::Text(seq![')']),
            ]
        },
        ExprView::Style(s, x) => seq![SinkCmd::SaveStyle, SinkCmd::SetStyle(s)] + emit(*x, ind, di)
            + seq![SinkCmd::RestoreStyle],
        ExprView::Quote(x) => seq![SinkCmd::Text(seq!['('])] + emit(*x, ind, di) + seq![
            SinkCmd::Text(seq![')']),
        ],
    }
}

/// The indentation level used inside an exploded list: the configured step
/// after an atomic head, one column after a compound head. The level is
/// capped at the largest `usize`, a bound no writable output can reach.
pub open spec fn expand_indent<T>(xs: Seq<ExprView<T>>, ind: nat, di: nat) -> nat {
    if is_atomic(xs.first()) {
        cap_usize(ind + di)
    } else {
        cap_usize(ind + 1)
    }
}

/// A path resolves for lookup exactly when it resolves for replacement,
/// whatever the replacement node is.
pub proof fn lemma_get_replace_some<T>(m: ExprView<T>, path: Seq<usize>, n: ExprView<T>)
    ensures
        (get_at(m, path) is Some) == (replace_at(m, path, n) is Some),
    decreases m,
{
    match m {
        ExprView::Style(_, x) => {
            lemma_get_replace_some(*x, path, n);
        },
        ExprView::Inline(xs) => {
            if path.len() > 0 && path[0] < xs.len() {
                lemma_get_replace_some(xs[path[0] as int], path.drop_first(), n);
            }
        },
        ExprView::Expand(xs) => {
            if path.len() > 0 && path[0] < xs.len() {
                lemma_get_replace_some(xs[path[0] as int], path.drop_first(), n);
            }
        },
        ExprView::Quote(x) => {
            if path.len() > 0 && path[0] == 0 {
                lemma_get_replace_some(*x, path.drop_first(), n);
            }
        },
        _ => {},
    }
}

/// The empty path resolves on every tree.
pub proof fn lemma_get_empty<T>(m: ExprView<T>)
    ensures
        get_at(m, Seq::empty()) is Some,
    decreases m,
{
    match m {
        ExprView::Style(_, x) => {
            lemma_get_empty(*x);
        },
        _ => {},
    }
}

/// Path lookup composes: following a concatenated path is following the
/// first part, then the second from the node it reached.
pub proof fn lemma_get_compose<T>(m: ExprView<T>, p: Seq<usize>, q: Seq<usize>)
    ensures
        get_at(m, p + q) == match get_at(m, p) {
            Some(x) => get_at(x, q),
            None => None,
        },
    decreases m, p.len(),
{
    match m {
        ExprView::Style(_, x) => {
            lemma_get_compose(*x, p, q);
        },
        _ => {
            if p.len() == 0 {
                assert(p + q =~= q);
                match m {
                    ExprView::Style(_, _) => {},
                    _ => {},
                }
            } else {
                assert((p + q).drop_first() =~= p.drop_first() + q);
                match m {
                    ExprView::Inline(xs) => {
                        if p[0] < xs.len() {
                            lemma_get_compose(xs[p[0] as int], p.drop_first(), q);
                        }
                    },
                    ExprView::Expand(xs) => {
                        if p[0] < xs.len() {
                            lemma_get_compose(xs[p[0] as int], p.drop_first(), q);
                        }
                    },
                    ExprView::Quote(x) => {
                        if p[0] == 0 {
                            lemma_get_compose(*x, p.drop_first(), q);
                        }
                    },
                    _ => {},
                }
            }
        },
    }
}

/// A one-segment path resolves exactly when its index is within the node's
/// child count.
pub proof fn lemma_get_single<T>(m: ExprView<T>, k: usize)
    ensures
        (get_at(m, seq![k]) is Some) == ((k as nat) < len_of(m)),
    decreases m,
{
    assert(seq![k].drop_first() =~= Seq::<usize>::empty());
    match m {
        ExprView::Style(_, x) => {
            lemma_get_single(*x, k);
        },
        ExprView::Inline(xs) => {
            if k < xs.len() {
                lemma_get_empty(xs[k as int]);
            }
        },
        ExprView::Expand(xs) => {
            if k < xs.len() {
                lemma_get_empty(xs[k as int]);
            }
        },
        ExprView::Quote(x) => {
            if k == 0 {
                lemma_get_empty(*x);
            }
        },
        _ => {},
    }
}

/// Path lookup strips style wrappers at the addressed position: the node it
/// returns is never itself a style wrapper at its root.
pub proof fn lemma_get_not_style<T>(m: ExprView<T>, p: Seq<usize>)
    ensures
        get_at(m, p) matches Some(x) ==> !(x is Style),
    decreases m,
{
    match m {
        ExprView::Style(_, x) => {
            lemma_get_not_style(*x, p);
        },
        ExprView::Inline(xs) => {
            if p.len() > 0 && p[0] < xs.len() {
                lemma_get_not_style(xs[p[0] as int], p.drop_first());
            }
        },
        ExprView::Expand(xs) => {
            if p.len() > 0 && p[0] < xs.len() {
                lemma_get_not_style(xs[p[0] as int], p.drop_first());
            }
        },
        ExprView::Quote(x) => {
            if p.len() > 0 && p[0] == 0 {
                lemma_get_not_style(*x, p.drop_first());
            }
        },
        _ => {},
    }
}

/// A nonempty valid path has a valid parent, and its last index addresses
/// one of the parent's children.
pub proof fn lemma_parent_of_valid<T>(m: ExprView<T>, p: Seq<usize>)
    requires
        get_at(m, p) is Some,
        p.len() > 0,
    ensures
        get_at(m, p.drop_last()) is Some,
        (p.last() as nat) < len_of(get_at(m, p.drop_last()).unwrap()),
{
    assert(p =~= p.drop_last() + seq![p.last()]);
    lemma_get_compose(m, p.drop_last(), seq![p.last()]);
    let parent = get_at(m, p.drop_last()).unwrap();
    lemma_get_single(parent, p.last());
}

/// Replacing along a valid path succeeds, and looking the path up afterwards
/// reaches the new node (behind any style wrappers at the new node's root).
pub proof fn lemma_get_after_replace<T>(m: ExprView<T>, p: Seq<usize>, n: ExprView<T>)
    requires
        get_at(m, p) is Some,
    ensures
        replace_at(m, p, n) is Some,
        get_at(replace_at(m, p, n).unwrap(), p) == get_at(n, Seq::empty()),
    decreases m,
{
    lemma_get_replace_some(m, p, n);
    if p.len() == 0 {
        assert(p =~= Seq::<usize>::empty());
    }
    match m {
        ExprView::Style(_, x) => {
            lemma_get_after_replace(*x, p, n);
        },
        ExprView::Inline(xs) => {
            if p.len() > 0 {
                lemma_get_after_replace(xs[p[0] as int], p.drop_first(), n);
            }
        },
        ExprView::Expand(xs) => {
            if p.len() > 0 {
                lemma_get_after_replace(xs[p[0] as int], p.drop_first(), n);
            }
        },
        ExprView::Quote(x) => {
            if p.len() > 0 {
                lemma_get_after_replace(*x, p.drop_first(), n);
            }
        },
        _ => {},
    }
}

/// Where a sibling insertion actually takes place: quotations are a single
/// unit, not a splice point, so the insertion target is shifted outward while
/// the addressed node's parent is a quotation.
pub open spec fn splice_path<T>(m: ExprView<T>, p: Seq<usize>) -> Seq<usize>
    decreases p.len(),
{
    if p.len() == 0 {
        p
    } else if get_at(m, p.drop_last()) matches Some(ExprView::Quote(_)) {
        splice_path(m, p.drop_last())
    } else {
        p
    }
}

/// The index a wrapping sibling move lands on: `dir` steps from `i` around a
/// ring of `n` siblings.
pub open spec fn wrap_index(i: int, dir: int, n: int) -> int {
    (i + dir) % n
}

/// Each node of a sequence contributes no more than the whole width sum.
pub proof fn lemma_child_width_le<T>(s: Seq<ExprView<T>>, i: int)
    requires
        0 <= i < s.len(),
    ensures
        width_of(s[i]) <= widths_sum(s),
    decreases s,
{
    if i == s.len() - 1 {
        assert(s.last() == s[i]);
    } else {
        lemma_child_width_le(s.drop_last(), i);
        assert(s.drop_last()[i] == s[i]);
    }
}

/// Taking one more element extends the prepared sequence by that element.
pub proof fn lemma_prep_seq_take<T>(s: Seq<ExprView<T>>, max: nat, i: int)
    requires
        0 <= i < s.len(),
    ensures
        prep_seq(s.take(i + 1), max) == prep_seq(s.take(i), max).push(prep(s[i], max)),
{
    assert(s.take(i + 1).drop_last() =~= s.take(i));
    assert(s.take(i + 1).last() == s[i]);
}

/// Taking one more element extends the width sum by that element's width.
pub proof fn lemma_widths_sum_take<T>(s: Seq<ExprView<T>>, i: int)
    requires
        0 <= i < s.len(),
    ensures
        widths_sum(s.take(i + 1)) == widths_sum(s.take(i)) + width_of(s[i]),
{
    assert(s.take(i + 1).drop_last() =~= s.take(i));
    assert(s.take(i + 1).last() == s[i]);
}

/// Taking one more element extends an inline tail by a space and that
/// element's commands.
pub proof fn lemma_emit_inline_tail_take<T>(s: Seq<ExprView<T>>, di: nat, i: int)
    requires
        0 <= i < s.len(),
    ensures
        emit_inline_tail(s.take(i + 1), di) == emit_inline_tail(s.take(i), di) + seq![
            SinkCmd::<T>::Text(seq![' ']),
        ] + emit(s[i], 0, di),
{
    assert(s.take(i + 1).drop_last() =~= s.take(i));
    assert(s.take(i + 1).last() == s[i]);
}

/// Taking one more element extends an exploded tail by a break, indentation,
/// and that element's commands.
pub proof fn lemma_emit_expanded_tail_take<T>(s: Seq<ExprView<T>>, ind: nat, di: nat, i: int)
    requires
        0 <= i < s.len(),
    ensures
        emit_expanded_tail(s.take(i + 1), ind, di) == emit_expanded_tail(s.take(i), ind, di)
            + seq![SinkCmd::<T>::Newline, SinkCmd::<T>::Text(spaces(ind))] + emit(s[i], ind, di),
{
    assert(s.take(i + 1).drop_last() =~= s.take(i));
    assert(s.take(i + 1).last() == s[i]);
}

/// The text a command stands for on its own.
pub open spec fn text_of_cmd<T>(cmd: SinkCmd<T>) -> Seq<char> {
    match cmd {
        SinkCmd::Text(s) => s,
        SinkCmd::Newline => seq!['\n'],
        SinkCmd::SetStyle(_) => Seq::empty(),
        SinkCmd::SaveStyle => Seq::empty(),
        SinkCmd::RestoreStyle => Seq::empty(),
    }
}

/// Appending one command appends its text.
pub proof fn lemma_text_of_push<T>(c: Seq<SinkCmd<T>>, cmd: SinkCmd<T>)
    ensures
        text_of(c.push(cmd)) == text_of(c) + text_of_cmd(cmd),
{
    assert(c.push(cmd).drop_last() =~= c);
    assert(c.push(cmd).last() == cmd);
}

/// Whether a command sequence contains a line break.
pub open spec fn has_newline<T>(cmds: Seq<SinkCmd<T>>) -> bool {
    exists|i: int| 0 <= i < cmds.len() && cmds[i] is Newline
}

/// The number of line breaks in a command sequence.
pub open spec fn newline_count<T>(cmds: Seq<SinkCmd<T>>) -> nat
    decreases cmds,
{
    if cmds.len() == 0 {
        0
    } else {
        newline_count(cmds.drop_last()) + if cmds.last() is Newline {
            1nat
        } else {
            0nat
        }
    }
}

/// Whether a tree consists of leaves, inline lists and wrappers only — the
/// shape every tree has before the layout engine first touches it.
pub open spec fn all_inline<T>(m: ExprView<T>) -> bool
    decreases m,
{
    match m {
        ExprView::Atom(_) => true,
        ExprView::Stat(_) => true,
        ExprView::Inline(xs) => forall|i: int| 0 <= i < xs.len() ==> all_inline(#[trigger] xs[i]),
        ExprView::Expand(_) => false,
        ExprView::Style(_, x) => all_inline(*x),
        ExprView::Quote(x) => all_inline(*x),
    }
}

/// The literal text a command sequence stands for when line breaks become
/// newline characters and style commands are invisible.
pub open spec fn text_of<T>(cmds: Seq<SinkCmd<T>>) -> Seq<char>
    decreases cmds,
{
    if cmds.len() == 0 {
        Seq::empty()
    } else {
        text_of(cmds.drop_last()) + text_of_cmd(cmds.last())
    }
}

/// Preparing a sequence keeps its length.
pub proof fn lemma_prep_seq_len<T>(xs: Seq<ExprView<T>>, max: nat)
    ensures
        prep_seq(xs, max).len() == xs.len(),
    decreases xs,
{
    if xs.len() > 0 {
        lemma_prep_seq_len(xs.drop_last(), max);
    }
}

/// Preparing a sequence prepares each node in place.
pub proof fn lemma_prep_seq_index<T>(xs: Seq<ExprView<T>>, max: nat, i: int)
    requires
        0 <= i < xs.len(),
    ensures
        prep_seq(xs, max).len() == xs.len(),
        prep_seq(xs, max)[i] == prep(xs[i], max),
    decreases xs,
{
    lemma_prep_seq_len(xs, max);
    if i == xs.len() - 1 {
        lemma_prep_seq_len(xs.drop_last(), max);
        assert(xs.last() == xs[i]);
    } else {
        lemma_prep_seq_index(xs.drop_last(), max, i);
        assert(xs.drop_last()[i] == xs[i]);
        lemma_prep_seq_len(xs.drop_last(), max);
    }
}

/// Layout preparation rewrites list tags but keeps the tree's shape: a path
/// resolves in the prepared tree exactly when it resolves in the original.
pub proof fn lemma_prep_preserves_get<T>(m: ExprView<T>, max: nat, p: Seq<usize>)
    ensures
        (get_at(prep(m, max), p) is Some) == (get_at(m, p) is Some),
    decreases m,
{
    match m {
        ExprView::Style(_, x) => {
            lemma_prep_preserves_get(*x, max, p);
        },
        ExprView::Quote(x) => {
            if p.len() > 0 && p[0] == 0 {
                lemma_prep_preserves_get(*x, max, p.drop_first());
            }
        },
        ExprView::Inline(xs) => {
            if width_of(m) <= max {
            } else {
                lemma_prep_seq_len(xs, max);
                if p.len() > 0 && p[0] < xs.len() {
                    lemma_prep_seq_index(xs, max, p[0] as int);
                    lemma_prep_preserves_get(xs[p[0] as int], max, p.drop_first());
                }
            }
        },
        _ => {},
    }
}

/// Wrapping the root in a style tag (inside any style wrappers already
/// there) is invisible to path lookup: every path resolves to the same node
/// as before.
pub proof fn lemma_get_with_root_style<T>(m: ExprView<T>, s: T, p: Seq<usize>)
    ensures
        ({
            let core = get_at(m, Seq::empty()).unwrap();
            let r = replace_at(m, Seq::empty(), ExprView::Style(s, Box::new(core)));
            &&& r is Some
            &&& get_at(r.unwrap(), p) == get_at(m, p)
        }),
    decreases m,
{
    lemma_get_empty(m);
    lemma_get_replace_some(
        m,
        Seq::empty(),
        ExprView::Style(s, Box::new(get_at(m, Seq::empty()).unwrap())),
    );
    match m {
        ExprView::Style(_, x) => {
            lemma_get_with_root_style(*x, s, p);
        },
        _ => {},
    }
}

/// The number of style saves minus the number of style restores in a command
/// sequence.
pub open spec fn save_balance<T>(cmds: Seq<SinkCmd<T>>) -> int
    decreases cmds,
{
    if cmds.len() == 0 {
        0
    } else {
        save_balance(cmds.drop_last()) + (if cmds.last() is SaveStyle {
            1int
        } else if cmds.last() is RestoreStyle {
            -1int
        } else {
            0int
        })
    }
}

/// The smallest save balance reached over all prefixes of a command
/// sequence; a nonnegative minimum means no restore ever outruns its save.
pub open spec fn min_save_balance<T>(cmds: Seq<SinkCmd<T>>) -> int
    decreases cmds,
{
    if cmds.len() == 0 {
        0
    } else {
        let tail_min = save_balance(cmds);
        let head_min = min_save_balance(cmds.drop_last());
        if head_min <= tail_min {
            head_min
        } else {
            tail_min
        }
    }
}

/// The tree-wide text invariant: an atom's text is never the empty string —
/// empty text is represented as an empty list instead.
pub open spec fn no_empty_atoms<T>(m: ExprView<T>) -> bool
    decreases m,
{
    match m {
        ExprView::Atom(s) => s.len() > 0,
        ExprView::Stat(_) => true,
        ExprView::Inline(xs) => forall|i: int|
            0 <= i < xs.len() ==> no_empty_atoms(#[trigger] xs[i]),
        ExprView::Expand(xs) => forall|i: int|
            0 <= i < xs.len() ==> no_empty_atoms(#[trigger] xs[i]),
        ExprView::Style(_, x) => no_empty_atoms(*x),
        ExprView::Quote(x) => no_empty_atoms(*x),
    }
}

/// Every node a path resolves to inside a tree without empty atoms is itself
/// free of empty atoms.
pub proof fn lemma_get_clean<T>(m: ExprView<T>, p: Seq<usize>)
    requires
        no_empty_atoms(m),
    ensures
        get_at(m, p) matches Some(x) ==> no_empty_atoms(x),
    decreases m,
{
    match m {
        ExprView::Style(_, x) => {
            lemma_get_clean(*x, p);
        },
        ExprView::Inline(xs) => {
            if p.len() > 0 && p[0] < xs.len() {
                lemma_get_clean(xs[p[0] as int], p.drop_first());
            }
        },
        ExprView::Expand(xs) => {
            if p.len() > 0 && p[0] < xs.len() {
                lemma_get_clean(xs[p[0] as int], p.drop_first());
            }
        },
        ExprView::Quote(x) => {
            if p.len() > 0 && p[0] == 0 {
                lemma_get_clean(*x, p.drop_first());
            }
        },
        _ => {},
    }
}

/// Replacing a node by one without empty atoms keeps the whole tree free of
/// empty atoms.
pub proof fn lemma_replace_clean<T>(m: ExprView<T>, p: Seq<usize>, n: ExprView<T>)
    requires
        no_empty_atoms(m),
        no_empty_atoms(n),
    ensures
        replace_at(m, p, n) matches Some(y) ==> no_empty_atoms(y),
    decreases m,
{
    match m {
        ExprView::Style(_, x) => {
            lemma_replace_clean(*x, p, n);
        },
        ExprView::Inline(xs) => {
            if p.len() > 0 && p[0] < xs.len() {
                lemma_replace_clean(xs[p[0] as int], p.drop_first(), n);
                if replace_at(xs[p[0] as int], p.drop_first(), n) is Some {
                    let y = replace_at(xs[p[0] as int], p.drop_first(), n).unwrap();
                    assert forall|i: int|
                        0 <= i < xs.update(p[0] as int, y).len() implies no_empty_atoms(
                        #[trigger] xs.update(p[0] as int, y)[i],
                    ) by {
                        if i != p[0] {
                            assert(xs.update(p[0] as int, y)[i] == xs[i]);
                        }
                    }
                }
            }
        },
        ExprView::Expand(xs) => {
            if p.len() > 0 && p[0] < xs.len() {
                lemma_replace_clean(xs[p[0] as int], p.drop_first(), n);
                if replace_at(xs[p[0] as int], p.drop_first(), n) is Some {
                    let y = replace_at(xs[p[0] as int], p.drop_first(), n).unwrap();
                    assert forall|i: int|
                        0 <= i < xs.update(p[0] as int, y).len() implies no_empty_atoms(
                        #[trigger] xs.update(p[0] as int, y)[i],
                    ) by {
                        if i != p[0] {
                            assert(xs.update(p[0] as int, y)[i] == xs[i]);
                        }
                    }
                }
            }
        },
        ExprView::Quote(x) => {
            if p.len() > 0 && p[0] == 0 {
                lemma_replace_clean(*x, p.drop_first(), n);
            }
        },
        _ => {},
    }
}

/// Prefixes chain: a prefix of a prefix is a prefix.
pub proof fn lemma_prefix_trans<A>(a: Seq<A>, b: Seq<A>, c: Seq<A>)
    requires
        a.is_prefix_of(b),
        b.is_prefix_of(c),
    ensures
        a.is_prefix_of(c),
{
    assert(a =~= c.subrange(0, a.len() as int));
}

/// A sequence is a prefix of itself followed by anything.
pub proof fn lemma_prefix_concat<A>(a: Seq<A>, b: Seq<A>)
    ensures
        a.is_prefix_of(a + b),
{
    assert(a =~= (a + b).subrange(0, a.len() as int));
}

/// Extending the tail keeps the prefix order under a common front.
pub proof fn lemma_prefix_concat_mono<A>(a: Seq<A>, b1: Seq<A>, b2: Seq<A>)
    requires
        b1.is_prefix_of(b2),
    ensures
        (a + b1).is_prefix_of(a + b2),
{
    assert(a + b1 =~= (a + b2).subrange(0, (a + b1).len() as int));
}

/// What a sink may hold after an interrupted emission: everything it held
/// before, extended by some prefix of the intended command sequence.
pub open spec fn received_prefix<T>(
    before: Seq<SinkCmd<T>>,
    after: Seq<SinkCmd<T>>,
    intended: Seq<SinkCmd<T>>,
) -> bool {
    before.is_prefix_of(after) && after.is_prefix_of(before + intended)
}

/// A sink that received nothing holds a (trivial) prefix of any emission.
pub proof fn lemma_received_none<T>(before: Seq<SinkCmd<T>>, intended: Seq<SinkCmd<T>>)
    ensures
        received_prefix(before, before, intended),
{
    assert(before =~= before.subrange(0, before.len() as int));
    lemma_prefix_concat(before, intended);
}

/// A sink that received the whole emission holds a prefix of it.
pub proof fn lemma_received_all<T>(before: Seq<SinkCmd<T>>, intended: Seq<SinkCmd<T>>)
    ensures
        received_prefix(before, before + intended, intended),
{
    lemma_prefix_concat(before, intended);
    assert((before + intended) =~= (before + intended).subrange(
        0,
        (before + intended).len() as int,
    ));
}

/// Interrupted emissions compose: after an exactly-known front `done` and a
/// partial continuation bounded by `rest`, the sink holds a prefix of any
/// emission that `done + rest` is a prefix of.
pub proof fn lemma_received_chain<T>(
    before: Seq<SinkCmd<T>>,
    mid: Seq<SinkCmd<T>>,
    after: Seq<SinkCmd<T>>,
    done: Seq<SinkCmd<T>>,
    rest: Seq<SinkCmd<T>>,
    intended: Seq<SinkCmd<T>>,
)
    requires
        mid == before + done,
        received_prefix(mid, after, rest),
        (done + rest).is_prefix_of(intended),
    ensures
        received_prefix(before, after, intended),
{
    lemma_prefix_concat(before, done);
    lemma_prefix_trans(before, mid, after);
    assert(mid + rest =~= before + (done + rest));
    lemma_prefix_concat_mono(before, done + rest, intended);
    lemma_prefix_trans(after, before + (done + rest), before + intended);
}

/// Emitting a longer front of an inline tail extends the shorter one.
pub proof fn lemma_inline_tail_take_prefix<T>(s: Seq<ExprView<T>>, di: nat, j: int)
    requires
        0 <= j <= s.len(),
    ensures
        emit_inline_tail(s.take(j), di).is_prefix_of(emit_inline_tail(s, di)),
    decreases s.len() - j,
{
    if j == s.len() {
        assert(s.take(j) =~= s);
        lemma_received_none(emit_inline_tail(s, di), Seq::<SinkCmd<T>>::empty());
    } else {
        lemma_emit_inline_tail_take(s, di, j);
        lemma_prefix_concat(
            emit_inline_tail(s.take(j), di),
            seq![SinkCmd::<T>::Text(seq![' '])] + emit(s[j], 0, di),
        );
        assert(emit_inline_tail(s.take(j), di) + (seq![SinkCmd::<T>::Text(seq![' '])] + emit(
            s[j],
            0,
            di,
        )) =~= emit_inline_tail(s.take(j + 1), di));
        lemma_inline_tail_take_prefix(s, di, j + 1);
        lemma_prefix_trans(
            emit_inline_tail(s.take(j), di),
            emit_inline_tail(s.take(j + 1), di),
            emit_inline_tail(s, di),
        );
    }
}

/// Emitting a longer front of an exploded tail extends the shorter one.
pub proof fn lemma_expanded_tail_take_prefix<T>(s: Seq<ExprView<T>>, ind: nat, di: nat, j: int)
    requires
        0 <= j <= s.len(),
    ensures
        emit_expanded_tail(s.take(j), ind, di).is_prefix_of(emit_expanded_tail(s, ind, di)),
    decreases s.len() - j,
{
    if j == s.len() {
        assert(s.take(j) =~= s);
        lemma_received_none(emit_expanded_tail(s, ind, di), Seq::<SinkCmd<T>>::empty());
    } else {
        lemma_emit_expanded_tail_take(s, ind, di, j);
        lemma_prefix_concat(
            emit_expanded_tail(s.take(j), ind, di),
            seq![SinkCmd::<T>::Newline, SinkCmd::<T>::Text(spaces(ind))] + emit(s[j], ind, di),
        );
        assert(emit_expanded_tail(s.take(j), ind, di) + (seq![
            SinkCmd::<T>::Newline,
            SinkCmd::<T>::Text(spaces(ind)),
        ] + emit(s[j], ind, di)) =~= emit_expanded_tail(s.take(j + 1), ind, di));
        lemma_expanded_tail_take_prefix(s, ind, di, j + 1);
        lemma_prefix_trans(
            emit_expanded_tail(s.take(j), ind, di),
            emit_expanded_tail(s.take(j + 1), ind, di),
            emit_expanded_tail(s, ind, di),
        );
    }
}

} // verus!
