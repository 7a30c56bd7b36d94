//! General laws of the layout engine, stated over the ghost model and proved
//! once and for all.

use vstd::prelude::*;

use vstd::arithmetic::div_mod::{
    lemma_add_mod_noop_right, lemma_mod_add_multiples_vanish, lemma_mod_bound, lemma_small_mod,
};

use crate::model::{
    all_inline, emit, emit_expanded_tail, emit_inline_tail, expand_indent, get_at, has_newline,
    lemma_get_after_replace, lemma_get_compose, lemma_get_empty, lemma_get_replace_some,
    lemma_prep_seq_len, min_save_balance, newline_count, prep, prep_seq, replace_at, save_balance,
    spaces, widths_sum, width_of, wrap_index, ExprView, SinkCmd,
};

verus! {

/// A style wrapper is invisible to the width computation: a styled node is
/// exactly as wide as the node it wraps.
pub proof fn lemma_styled_width<T>(s: T, e: ExprView<T>)
    ensures
        width_of(ExprView::Style(s, Box::new(e))) == width_of(e),
{
}

/// Layout preparation is idempotent: preparing an already prepared tree for
/// the same width budget changes nothing.
pub proof fn lemma_prepare_idempotent<T>(m: ExprView<T>, max: nat)
    ensures
        prep(prep(m, max), max) == prep(m, max),
    decreases m,
{
    match m {
        ExprView::Style(_, x) => {
            lemma_prepare_idempotent(*x, max);
        },
        ExprView::Quote(x) => {
            lemma_prepare_idempotent(*x, max);
        },
        _ => {},
    }
}

/// Line breaks distribute over concatenation of command sequences.
pub proof fn lemma_has_newline_concat<T>(a: Seq<SinkCmd<T>>, b: Seq<SinkCmd<T>>)
    ensures
        has_newline(a + b) == (has_newline(a) || has_newline(b)),
{
    if has_newline(a) {
        let i = choose|i: int| 0 <= i < a.len() && a[i] is Newline;
        assert((a + b)[i] is Newline);
    }
    if has_newline(b) {
        let i = choose|i: int| 0 <= i < b.len() && b[i] is Newline;
        assert((a + b)[a.len() + i] is Newline);
    }
    if has_newline(a + b) {
        let i = choose|i: int| 0 <= i < (a + b).len() && (a + b)[i] is Newline;
        if i < a.len() {
            assert(a[i] is Newline);
        } else {
            assert(b[i - a.len()] is Newline);
        }
    }
}

/// A tree of leaves, inline lists and wrappers emits no line break at any
/// indentation level.
pub proof fn lemma_all_inline_emits_no_break<T>(m: ExprView<T>, ind: nat, di: nat)
    requires
        all_inline(m),
    ensures
        !has_newline(emit(m, ind, di)),
    decreases m, 1nat,
{
    match m {
        ExprView::Atom(_) => {},
        ExprView::Stat(_) => {},
        ExprView::Inline(xs) => {
            if xs.len() > 0 {
                lemma_all_inline_emits_no_break(xs.first(), 0, di);
                lemma_inline_tail_no_break(xs.drop_first(), di);
                lemma_has_newline_concat(seq![SinkCmd::<T>::Text(seq!['('])], emit(xs.first(), 0, di));
                lemma_has_newline_concat(
                    seq![SinkCmd::<T>::Text(seq!['('])] + emit(xs.first(), 0, di),
                    emit_inline_tail(xs.drop_first(), di),
                );
                lemma_has_newline_concat(
                    seq![SinkCmd::<T>::Text(seq!['('])] + emit(xs.first(), 0, di)
                        + emit_inline_tail(xs.drop_first(), di),
                    seq![SinkCmd::<T>::Text(seq![')'])],
                );
            }
        },
        ExprView::Expand(_) => {},
        ExprView::Style(_, x) => {
            lemma_all_inline_emits_no_break(*x, ind, di);
            lemma_has_newline_concat(
                seq![SinkCmd::<T>::SaveStyle, SinkCmd::SetStyle(m->Style_0)],
                emit(*x, ind, di),
            );
            lemma_has_newline_concat(
                seq![SinkCmd::<T>::SaveStyle, SinkCmd::SetStyle(m->Style_0)] + emit(*x, ind, di),
                seq![SinkCmd::<T>::RestoreStyle],
            );
        },
        ExprView::Quote(x) => {
            lemma_all_inline_emits_no_break(*x, ind, di);
            lemma_has_newline_concat(seq![SinkCmd::<T>::Text(seq!['('])], emit(*x, ind, di));
            lemma_has_newline_concat(
                seq![SinkCmd::<T>::Text(seq!['('])] + emit(*x, ind, di),
                seq![SinkCmd::<T>::Text(seq![')'])],
            );
        },
    }
}

/// The space-separated tail of an inline list emits no line break when every
/// node in it is free of exploded lists.
proof fn lemma_inline_tail_no_break<T>(s: Seq<ExprView<T>>, di: nat)
    requires
        forall|i: int| 0 <= i < s.len() ==> all_inline(#[trigger] s[i]),
    ensures
        !has_newline(emit_inline_tail(s, di)),
    decreases s, 0nat,
{
    if s.len() > 0 {
        assert(forall|i: int|
            0 <= i < s.drop_last().len() ==> all_inline(#[trigger] s.drop_last()[i]));
        lemma_inline_tail_no_break(s.drop_last(), di);
        assert(s.last() == s[s.len() - 1]);
        lemma_all_inline_emits_no_break(s.last(), 0, di);
        lemma_has_newline_concat(
            emit_inline_tail(s.drop_last(), di),
            seq![SinkCmd::<T>::Text(seq![' '])],
        );
        lemma_has_newline_concat(
            emit_inline_tail(s.drop_last(), di) + seq![SinkCmd::<T>::Text(seq![' '])],
            emit(s.last(), 0, di),
        );
    }
}

/// A freshly built tree (no exploded lists) that fits in the width budget is
/// left untouched by preparation.
pub proof fn lemma_prep_fits_identity<T>(m: ExprView<T>, max: nat)
    requires
        all_inline(m),
        width_of(m) <= max,
    ensures
        prep(m, max) == m,
    decreases m,
{
    match m {
        ExprView::Style(_, x) => {
            lemma_prep_fits_identity(*x, max);
        },
        ExprView::Quote(x) => {
            lemma_prep_fits_identity(*x, max);
        },
        _ => {},
    }
}

/// A freshly built list that fits in the width budget renders without a
/// single line break.
pub proof fn lemma_fits_renders_inline<T>(m: ExprView<T>, max: nat, di: nat)
    requires
        all_inline(m),
        width_of(m) <= max,
    ensures
        !has_newline(emit(prep(m, max), 0, di)),
{
    lemma_prep_fits_identity(m, max);
    lemma_all_inline_emits_no_break(m, 0, di);
}

/// Line break counts add up over concatenation.
pub proof fn lemma_newline_count_concat<T>(a: Seq<SinkCmd<T>>, b: Seq<SinkCmd<T>>)
    ensures
        newline_count(a + b) == newline_count(a) + newline_count(b),
    decreases b,
{
    if b.len() == 0 {
        assert(a + b =~= a);
    } else {
        lemma_newline_count_concat(a, b.drop_last());
        assert((a + b).drop_last() =~= a + b.drop_last());
        assert((a + b).last() == b.last());
    }
}

/// The broken tail of an exploded list carries one line break for each of
/// its nodes.
proof fn lemma_expanded_tail_breaks<T>(s: Seq<ExprView<T>>, ind: nat, di: nat)
    ensures
        newline_count(emit_expanded_tail(s, ind, di)) >= s.len(),
    decreases s,
{
    if s.len() > 0 {
        lemma_expanded_tail_breaks(s.drop_last(), ind, di);
        lemma_newline_count_concat(
            emit_expanded_tail(s.drop_last(), ind, di),
            seq![SinkCmd::<T>::Newline, SinkCmd::Text(spaces(ind))],
        );
        lemma_newline_count_concat(
            emit_expanded_tail(s.drop_last(), ind, di) + seq![
                SinkCmd::<T>::Newline,
                SinkCmd::Text(spaces(ind)),
            ],
            emit(s.last(), ind, di),
        );
        assert(newline_count(seq![SinkCmd::<T>::Newline, SinkCmd::Text(spaces(ind))]) == 1) by {
            reveal_with_fuel(newline_count, 3);
            assert(seq![SinkCmd::<T>::Newline, SinkCmd::Text(spaces(ind))].drop_last()
                =~= seq![SinkCmd::<T>::Newline]);
            assert(seq![SinkCmd::<T>::Newline].drop_last() =~= Seq::<SinkCmd<T>>::empty());
        }
        assert(newline_count(emit(s.last(), ind, di)) >= 0);
    }
}

/// A list wider than the budget is rewritten to an exploded list, and its
/// rendering places a line break (with indentation) before every child after
/// the first: the emission decomposes into the opening parenthesis, the first
/// child at the new indentation level, a tail holding a break and indentation
/// in front of each remaining child, and the closing parenthesis — at least
/// one break per child after the first.
pub proof fn lemma_wide_list_breaks_before_children<T>(xs: Seq<ExprView<T>>, max: nat, di: nat)
    requires
        width_of(ExprView::Inline(xs)) > max,
        xs.len() >= 2,
    ensures
        prep(ExprView::Inline(xs), max) == ExprView::Expand(prep_seq(xs, max)),
        emit(prep(ExprView::Inline(xs), max), 0, di) == seq![SinkCmd::<T>::Text(seq!['('])] + emit(
            prep_seq(xs, max).first(),
            expand_indent(prep_seq(xs, max), 0, di),
            di,
        ) + emit_expanded_tail(
            prep_seq(xs, max).drop_first(),
            expand_indent(prep_seq(xs, max), 0, di),
            di,
        ) + seq![SinkCmd::<T>::Text(seq![')'])],
        newline_count(emit(prep(ExprView::Inline(xs), max), 0, di)) >= xs.len() - 1,
{
    lemma_prep_seq_len(xs, max);
    let ys = prep_seq(xs, max);
    let ind = expand_indent(ys, 0, di);
    lemma_expanded_tail_breaks(ys.drop_first(), ind, di);
    lemma_newline_count_concat(
        seq![SinkCmd::<T>::Text(seq!['('])],
        emit(ys.first(), ind, di),
    );
    lemma_newline_count_concat(
        seq![SinkCmd::<T>::Text(seq!['('])] + emit(ys.first(), ind, di),
        emit_expanded_tail(ys.drop_first(), ind, di),
    );
    lemma_newline_count_concat(
        seq![SinkCmd::<T>::Text(seq!['('])] + emit(ys.first(), ind, di) + emit_expanded_tail(
            ys.drop_first(),
            ind,
            di,
        ),
        seq![SinkCmd::<T>::Text(seq![')'])],
    );
}

/// Reading and writing through a path agree: a path resolves for replacement
/// exactly when it resolves for lookup, and writing back the very node a
/// lookup observed leaves the tree unchanged.
pub proof fn lemma_lookup_replace_agree<T>(m: ExprView<T>, p: Seq<usize>)
    requires
        get_at(m, p) is Some,
    ensures
        replace_at(m, p, get_at(m, p).unwrap()) == Some(m),
    decreases m,
{
    lemma_get_replace_some(m, p, get_at(m, p).unwrap());
    if p.len() == 0 {
        assert(p =~= Seq::<usize>::empty());
    }
    match m {
        ExprView::Style(_, x) => {
            lemma_lookup_replace_agree(*x, p);
        },
        ExprView::Inline(xs) => {
            if p.len() > 0 {
                lemma_lookup_replace_agree(xs[p[0] as int], p.drop_first());
                assert(xs.update(p[0] as int, xs[p[0] as int]) =~= xs);
            }
        },
        ExprView::Expand(xs) => {
            if p.len() > 0 {
                lemma_lookup_replace_agree(xs[p[0] as int], p.drop_first());
                assert(xs.update(p[0] as int, xs[p[0] as int]) =~= xs);
            }
        },
        ExprView::Quote(x) => {
            if p.len() > 0 {
                lemma_lookup_replace_agree(*x, p.drop_first());
            }
        },
        _ => {},
    }
}

/// The index reached after a number of single sibling steps around a ring of
/// `n` siblings.
pub open spec fn iterate_move(i: int, k: nat, n: int) -> int
    decreases k,
{
    if k == 0 {
        i
    } else {
        iterate_move(wrap_index(i, 1, n), (k - 1) as nat, n)
    }
}

/// Stepping `k` times by one around a ring of `n` siblings lands `k` places
/// over, wrapping around.
pub proof fn lemma_iterate_move_adds(i: int, k: nat, n: int)
    requires
        0 <= i < n,
    ensures
        iterate_move(i, k, n) == (i + k) % n,
    decreases k,
{
    if k == 0 {
        lemma_small_mod(i as nat, n as nat);
    } else {
        lemma_mod_bound(i + 1, n);
        lemma_iterate_move_adds(wrap_index(i, 1, n), (k - 1) as nat, n);
        lemma_add_mod_noop_right(k - 1, i + 1, n);
    }
}

/// Moving to the next sibling exactly as many times as the parent has
/// children returns the cursor to the index it started from.
pub proof fn lemma_sibling_cycle(i: int, n: int)
    requires
        0 <= i < n,
    ensures
        iterate_move(i, n as nat, n) == i,
{
    lemma_iterate_move_adds(i, n as nat, n);
    lemma_mod_add_multiples_vanish(i, n);
    lemma_small_mod(i as nat, n as nat);
}

/// Appending one character to a freshly created empty list puts a one-letter
/// atom there with the cursor on it, and deleting that character returns the
/// node under the cursor to empty-list form — never to an empty atom.
pub proof fn lemma_append_then_delete_restores_empty<T>(m: ExprView<T>, p: Seq<usize>, c: Seq<char>)
    requires
        get_at(m, p) == Some(ExprView::<T>::Inline(Seq::empty())),
        c.len() == 1,
    ensures
        ({
            let appended = replace_at(m, p, ExprView::Inline(seq![ExprView::Atom(c)]));
            let p1 = p.push(0);
            &&& appended is Some
            &&& get_at(appended.unwrap(), p1) == Some(ExprView::<T>::Atom(c))
            &&& ({
                let deleted = replace_at(
                    appended.unwrap(),
                    p1,
                    ExprView::Inline(Seq::empty()),
                );
                &&& deleted is Some
                &&& get_at(deleted.unwrap(), p1) == Some(
                    ExprView::<T>::Inline(Seq::empty()),
                )
            })
        }),
{
    let node1 = ExprView::<T>::Inline(seq![ExprView::Atom(c)]);
    lemma_get_after_replace(m, p, node1);
    let m1 = replace_at(m, p, node1).unwrap();
    let p1 = p.push(0);
    assert(p1 =~= p + seq![0usize]);
    lemma_get_compose(m1, p, seq![0usize]);
    assert(seq![0usize].drop_first() =~= Seq::<usize>::empty());
    assert(get_at(ExprView::<T>::Atom(c), Seq::empty()) == Some(ExprView::<T>::Atom(c)));
    assert(get_at(node1, seq![0usize]) == Some(ExprView::<T>::Atom(c)));
    lemma_get_after_replace(m1, p1, ExprView::<T>::Inline(Seq::empty()));
}

/// Save balances add up over concatenation, and the lowest balance of a
/// concatenation is reached either in the first part or within the second
/// part shifted by the first part's balance.
pub proof fn lemma_save_balance_concat<T>(a: Seq<SinkCmd<T>>, b: Seq<SinkCmd<T>>)
    ensures
        save_balance(a + b) == save_balance(a) + save_balance(b),
        min_save_balance(a + b) == if min_save_balance(a) <= save_balance(a) + min_save_balance(b) {
            min_save_balance(a)
        } else {
            save_balance(a) + min_save_balance(b)
        },
    decreases b,
{
    if b.len() == 0 {
        assert(a + b =~= a);
        lemma_min_save_balance_le(a);
    } else {
        lemma_save_balance_concat(a, b.drop_last());
        assert((a + b).drop_last() =~= a + b.drop_last());
        assert((a + b).last() == b.last());
    }
}

/// The minimum over prefixes never exceeds the full balance, and the empty
/// prefix keeps it at or below zero.
pub proof fn lemma_min_save_balance_le<T>(a: Seq<SinkCmd<T>>)
    ensures
        min_save_balance(a) <= save_balance(a),
        min_save_balance(a) <= 0,
    decreases a,
{
    if a.len() > 0 {
        lemma_min_save_balance_le(a.drop_last());
    }
}

/// Style scopes are strictly paired: a rendered tree saves the style exactly
/// as often as it restores it, and no prefix of the emission restores a style
/// that was not saved within the emission itself.
pub proof fn lemma_style_scopes_balanced<T>(m: ExprView<T>, ind: nat, di: nat)
    ensures
        save_balance(emit(m, ind, di)) == 0,
        min_save_balance(emit(m, ind, di)) == 0,
    decreases m, 1nat,
{
    let e = emit(m, ind, di);
    match m {
        ExprView::Atom(_) => {
            reveal_with_fuel(save_balance, 2);
            reveal_with_fuel(min_save_balance, 2);
            assert(e.drop_last() =~= Seq::<SinkCmd<T>>::empty());
        },
        ExprView::Stat(_) => {
            reveal_with_fuel(save_balance, 2);
            reveal_with_fuel(min_save_balance, 2);
            assert(e.drop_last() =~= Seq::<SinkCmd<T>>::empty());
        },
        ExprView::Inline(xs) => {
            if xs.len() == 0 {
                reveal_with_fuel(save_balance, 3);
                reveal_with_fuel(min_save_balance, 3);
                assert(seq![SinkCmd::<T>::Text(seq!['(']), SinkCmd::Text(seq![')'])].drop_last()
                    =~= seq![SinkCmd::<T>::Text(seq!['('])]);
                assert(seq![SinkCmd::<T>::Text(seq!['('])].drop_last() =~= Seq::<
                    SinkCmd<T>,
                >::empty());
            } else {
                lemma_style_scopes_balanced(xs.first(), 0, di);
                lemma_inline_tail_balanced(xs.drop_first(), di);
                lemma_single_text_balanced::<T>(seq!['(']);
                lemma_single_text_balanced::<T>(seq![')']);
                lemma_save_balance_concat(seq![SinkCmd::<T>::Text(seq!['('])], emit(xs.first(), 0, di));
                lemma_save_balance_concat(
                    seq![SinkCmd::<T>::Text(seq!['('])] + emit(xs.first(), 0, di),
                    emit_inline_tail(xs.drop_first(), di),
                );
                lemma_save_balance_concat(
                    seq![SinkCmd::<T>::Text(seq!['('])] + emit(xs.first(), 0, di)
                        + emit_inline_tail(xs.drop_first(), di),
                    seq![SinkCmd::<T>::Text(seq![')'])],
                );
            }
        },
        ExprView::Expand(xs) => {
            let inner = expand_indent(xs, ind, di);
            if xs.len() == 0 {
                reveal_with_fuel(save_balance, 3);
                reveal_with_fuel(min_save_balance, 3);
                assert(seq![SinkCmd::<T>::Text(seq!['(']), SinkCmd::Text(seq![')'])].drop_last()
                    =~= seq![SinkCmd::<T>::Text(seq!['('])]);
                assert(seq![SinkCmd::<T>::Text(seq!['('])].drop_last() =~= Seq::<
                    SinkCmd<T>,
                >::empty());
            } else if xs.len() == 1 {
                lemma_style_scopes_balanced(xs.first(), ind, di);
                lemma_single_text_balanced::<T>(seq!['(']);
                lemma_single_text_balanced::<T>(seq![')']);
                lemma_save_balance_concat(seq![SinkCmd::<T>::Text(seq!['('])], emit(xs.first(), ind, di));
                lemma_save_balance_concat(
                    seq![SinkCmd::<T>::Text(seq!['('])] + emit(xs.first(), ind, di),
                    seq![SinkCmd::<T>::Text(seq![')'])],
                );
            } else {
                lemma_style_scopes_balanced(xs.first(), inner, di);
                lemma_expanded_tail_balanced(xs.drop_first(), inner, di);
                lemma_single_text_balanced::<T>(seq!['(']);
                lemma_single_text_balanced::<T>(seq![')']);
                lemma_save_balance_concat(
                    seq![SinkCmd::<T>::Text(seq!['('])],
                    emit(xs.first(), inner, di),
                );
                lemma_save_balance_concat(
                    seq![SinkCmd::<T>::Text(seq!['('])] + emit(xs.first(), inner, di),
                    emit_expanded_tail(xs.drop_first(), inner, di),
                );
                lemma_save_balance_concat(
                    seq![SinkCmd::<T>::Text(seq!['('])] + emit(xs.first(), inner, di)
                        + emit_expanded_tail(xs.drop_first(), inner, di),
                    seq![SinkCmd::<T>::Text(seq![')'])],
                );
            }
        },
        ExprView::Style(_, x) => {
            lemma_style_scopes_balanced(*x, ind, di);
            reveal_with_fuel(save_balance, 3);
            reveal_with_fuel(min_save_balance, 3);
            assert(seq![SinkCmd::<T>::SaveStyle, SinkCmd::SetStyle(m->Style_0)].drop_last()
                =~= seq![SinkCmd::<T>::SaveStyle]);
            assert(seq![SinkCmd::<T>::SaveStyle].drop_last() =~= Seq::<SinkCmd<T>>::empty());
            assert(seq![SinkCmd::<T>::RestoreStyle].drop_last() =~= Seq::<SinkCmd<T>>::empty());
            lemma_save_balance_concat(
                seq![SinkCmd::<T>::SaveStyle, SinkCmd::SetStyle(m->Style_0)],
                emit(*x, ind, di),
            );
            lemma_save_balance_concat(
                seq![SinkCmd::<T>::SaveStyle, SinkCmd::SetStyle(m->Style_0)] + emit(*x, ind, di),
                seq![SinkCmd::<T>::RestoreStyle],
            );
        },
        ExprView::Quote(x) => {
            lemma_style_scopes_balanced(*x, ind, di);
            lemma_single_text_balanced::<T>(seq!['(']);
            lemma_single_text_balanced::<T>(seq![')']);
            lemma_save_balance_concat(seq![SinkCmd::<T>::Text(seq!['('])], emit(*x, ind, di));
            lemma_save_balance_concat(
                seq![SinkCmd::<T>::Text(seq!['('])] + emit(*x, ind, di),
                seq![SinkCmd::<T>::Text(seq![')'])],
            );
        },
    }
}

/// A single text command neither saves nor restores.
proof fn lemma_single_text_balanced<T>(s: Seq<char>)
    ensures
        save_balance(seq![SinkCmd::<T>::Text(s)]) == 0,
        min_save_balance(seq![SinkCmd::<T>::Text(s)]) == 0,
{
    reveal_with_fuel(save_balance, 2);
    reveal_with_fuel(min_save_balance, 2);
    assert(seq![SinkCmd::<T>::Text(s)].drop_last() =~= Seq::<SinkCmd<T>>::empty());
}

/// The space-separated tail of an inline list is balanced.
proof fn lemma_inline_tail_balanced<T>(s: Seq<ExprView<T>>, di: nat)
    ensures
        save_balance(emit_inline_tail(s, di)) == 0,
        min_save_balance(emit_inline_tail(s, di)) == 0,
    decreases s, 0nat,
{
    if s.len() > 0 {
        lemma_inline_tail_balanced(s.drop_last(), di);
        lemma_style_scopes_balanced(s.last(), 0, di);
        lemma_single_text_balanced::<T>(seq![' ']);
        lemma_save_balance_concat(
            emit_inline_tail(s.drop_last(), di),
            seq![SinkCmd::<T>::Text(seq![' '])],
        );
        lemma_save_balance_concat(
            emit_inline_tail(s.drop_last(), di) + seq![SinkCmd::<T>::Text(seq![' '])],
            emit(s.last(), 0, di),
        );
    }
}

/// The broken tail of an exploded list is balanced.
proof fn lemma_expanded_tail_balanced<T>(s: Seq<ExprView<T>>, ind: nat, di: nat)
    ensures
        save_balance(emit_expanded_tail(s, ind, di)) == 0,
        min_save_balance(emit_expanded_tail(s, ind, di)) == 0,
    decreases s, 0nat,
{
    if s.len() > 0 {
        lemma_expanded_tail_balanced(s.drop_last(), ind, di);
        lemma_style_scopes_balanced(s.last(), ind, di);
        reveal_with_fuel(save_balance, 3);
        reveal_with_fuel(min_save_balance, 3);
        assert(seq![SinkCmd::<T>::Newline, SinkCmd::Text(spaces(ind))].drop_last()
            =~= seq![SinkCmd::<T>::Newline]);
        assert(seq![SinkCmd::<T>::Newline].drop_last() =~= Seq::<SinkCmd<T>>::empty());
        lemma_save_balance_concat(
            emit_expanded_tail(s.drop_last(), ind, di),
            seq![SinkCmd::<T>::Newline, SinkCmd::Text(spaces(ind))],
        );
        lemma_save_balance_concat(
            emit_expanded_tail(s.drop_last(), ind, di) + seq![
                SinkCmd::<T>::Newline,
                SinkCmd::Text(spaces(ind)),
            ],
            emit(s.last(), ind, di),
        );
    }
}

} // verus!
