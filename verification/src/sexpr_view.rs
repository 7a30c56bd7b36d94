//! The structural cursor: a view that owns an expression tree and a path
//! into it, and edits the tree without ever leaving the cursor on a node
//! that does not exist.

use vstd::prelude::*;
use vstd::arithmetic::div_mod::{
    lemma_fundamental_div_mod, lemma_fundamental_div_mod_converse_mod, lemma_mod_bound,
};
use vstd::string::StrSliceExecFns;
use vstd::string::StringExecFns;

use crate::events::{Event, EventHandler};
use crate::model::{
    get_at, lemma_get_after_replace, lemma_get_clean, lemma_get_compose, lemma_get_empty,
    lemma_get_not_style, lemma_get_replace_some, lemma_get_single, lemma_parent_of_valid,
    lemma_replace_clean, len_of, no_empty_atoms, replace_at, splice_path, wrap_index, ExprView,
};
use crate::styles::Style;
use crate::sxfmt::{expr_view, exprs_view, PrettyExpr};

verus! {

/// Relies on `String::push`: appends exactly the given character to the
/// string.
#[verifier::external_body]
fn push_char(s: &mut String, ch: char)
    ensures
        final(s)@ == old(s)@.push(ch),
{
    s.push(ch);
}

/// An editable view of one expression tree: the tree, an advisory viewport
/// size used to parametrize the layout width, and the cursor path.
pub struct SexprView {
    pub expr: PrettyExpr<Style>,
    pub width: usize,
    pub height: usize,
    pub cursor: Vec<usize>,
}


/// The effect of one step toward the parent: the tree stays, the cursor
/// drops its last segment (at the root it stays).
pub open spec fn moved_out(pre: SexprView, post: SexprView) -> bool {
    &&& post.expr == pre.expr
    &&& post.width == pre.width
    &&& post.height == pre.height
    &&& pre.cursor@.len() == 0 ==> post.cursor@ == pre.cursor@
    &&& pre.cursor@.len() > 0 ==> post.cursor@ == pre.cursor@.drop_last()
}

/// The effect of entering the addressed node: the tree stays, the cursor
/// gains a zero segment when the node has a first child, else it stays.
pub open spec fn moved_into(pre: SexprView, post: SexprView) -> bool {
    &&& post.expr == pre.expr
    &&& post.width == pre.width
    &&& post.height == pre.height
    &&& get_at(pre.expr@, pre.cursor@.push(0)) is Some ==> post.cursor@ == pre.cursor@.push(0)
    &&& get_at(pre.expr@, pre.cursor@.push(0)) is None ==> post.cursor@ == pre.cursor@
}

/// The effect of a sibling move by `dir`: the tree stays, the cursor's last
/// segment wraps around the parent's child count (at the root it stays).
pub open spec fn moved_sibling(pre: SexprView, post: SexprView, dir: int) -> bool {
    &&& post.expr == pre.expr
    &&& post.width == pre.width
    &&& post.height == pre.height
    &&& pre.cursor@.len() == 0 ==> post.cursor@ == pre.cursor@
    &&& pre.cursor@.len() > 0 ==> post.cursor@ == pre.cursor@.update(
        pre.cursor@.len() - 1,
        wrap_index(
            pre.cursor@.last() as int,
            dir,
            len_of(get_at(pre.expr@, pre.cursor@.drop_last()).unwrap()) as int,
        ) as usize,
    )
}

/// The effect of appending `text` at the cursor: onto an atom's text
/// directly; into an empty list as a fresh atom the cursor descends to;
/// labels, quotations and nonempty lists are left unchanged.
pub open spec fn appended(pre: SexprView, post: SexprView, text: Seq<char>) -> bool {
    &&& post.width == pre.width
    &&& post.height == pre.height
    &&& no_empty_atoms(pre.expr@) ==> no_empty_atoms(post.expr@)
    &&& ({
        let node = get_at(pre.expr@, pre.cursor@).unwrap();
        &&& (node matches ExprView::Atom(s) ==> Some(post.expr@) == replace_at(
            pre.expr@,
            pre.cursor@,
            ExprView::Atom(s + text),
        ) && post.cursor@ == pre.cursor@)
        &&& ((node matches ExprView::Inline(xs) && xs.len() == 0) ==> Some(post.expr@)
            == replace_at(
            pre.expr@,
            pre.cursor@,
            ExprView::Inline(seq![ExprView::Atom(text)]),
        ) && post.cursor@ == pre.cursor@.push(0))
        &&& ((node matches ExprView::Expand(xs) && xs.len() == 0) ==> Some(post.expr@)
            == replace_at(
            pre.expr@,
            pre.cursor@,
            ExprView::Expand(seq![ExprView::Atom(text)]),
        ) && post.cursor@ == pre.cursor@.push(0))
        &&& (!(node is Atom) && !(node matches ExprView::Inline(xs) && xs.len() == 0) && !(
        node matches ExprView::Expand(xs)
            && xs.len() == 0) ==> post.expr@ == pre.expr@ && post.cursor@ == pre.cursor@)
    })
}

/// The effect of deleting one character at the cursor: an atom loses its
/// last character, an atom that would become empty becomes an empty list,
/// anything else stays.
pub open spec fn deleted_char(pre: SexprView, post: SexprView) -> bool {
    &&& post.width == pre.width
    &&& post.height == pre.height
    &&& post.cursor@ == pre.cursor@
    &&& no_empty_atoms(pre.expr@) ==> no_empty_atoms(post.expr@)
    &&& ({
        let node = get_at(pre.expr@, pre.cursor@).unwrap();
        &&& node matches ExprView::Atom(s) ==> s.len() > 1 ==> Some(post.expr@) == replace_at(
            pre.expr@,
            pre.cursor@,
            ExprView::Atom(s.drop_last()),
        )
        &&& node matches ExprView::Atom(s) ==> s.len() <= 1 ==> Some(post.expr@) == replace_at(
            pre.expr@,
            pre.cursor@,
            ExprView::Inline(Seq::empty()),
        )
        &&& !(node is Atom) ==> post.expr@ == pre.expr@
    })
}

/// The effect of removing the addressed element from its parent: the child
/// sequence loses the element, the cursor pops onto an emptied parent or is
/// clamped onto a surviving sibling; at the root or inside a quotation
/// nothing changes.
pub open spec fn deleted_element(pre: SexprView, post: SexprView) -> bool {
    &&& post.width == pre.width
    &&& post.height == pre.height
    &&& no_empty_atoms(pre.expr@) ==> no_empty_atoms(post.expr@)
    &&& pre.cursor@.len() == 0 ==> post.expr@ == pre.expr@ && post.cursor@ == pre.cursor@
    &&& pre.cursor@.len() > 0 ==> ({
        let q = pre.cursor@.drop_last();
        let k = pre.cursor@.last();
        let parent = get_at(pre.expr@, q).unwrap();
        &&& parent matches ExprView::Inline(xs) ==> Some(post.expr@) == replace_at(
            pre.expr@,
            q,
            ExprView::Inline(xs.remove(k as int)),
        ) && (xs.len() == 1 ==> post.cursor@ == q) && (xs.len() > 1 ==> post.cursor@ == q.push(
            if (k as int) < xs.len() - 1 {
                k
            } else {
                ((xs.len() - 2) as nat) as usize
            },
        ))
        &&& parent matches ExprView::Expand(xs) ==> Some(post.expr@) == replace_at(
            pre.expr@,
            q,
            ExprView::Expand(xs.remove(k as int)),
        ) && (xs.len() == 1 ==> post.cursor@ == q) && (xs.len() > 1 ==> post.cursor@ == q.push(
            if (k as int) < xs.len() - 1 {
                k
            } else {
                ((xs.len() - 2) as nat) as usize
            },
        ))
        &&& parent is Quote ==> post.expr@ == pre.expr@ && post.cursor@ == pre.cursor@
    })
}

/// The effect of inserting a fresh empty list after the addressed element,
/// with the quotation-is-a-unit rule: the target is first shifted outward
/// past enclosing quotations; the cursor lands on the inserted element.
pub open spec fn inserted_after(pre: SexprView, post: SexprView) -> bool {
    &&& post.width == pre.width
    &&& post.height == pre.height
    &&& no_empty_atoms(pre.expr@) ==> no_empty_atoms(post.expr@)
    &&& ({
        let t = splice_path(pre.expr@, pre.cursor@);
        &&& t.len() == 0 ==> post.expr@ == pre.expr@ && post.cursor@ == t
        &&& t.len() > 0 ==> ({
            let q = t.drop_last();
            let k = t.last();
            let parent = get_at(pre.expr@, q).unwrap();
            &&& parent matches ExprView::Inline(xs) ==> Some(post.expr@) == replace_at(
                pre.expr@,
                q,
                ExprView::Inline(xs.insert(k + 1, ExprView::Inline(Seq::empty()))),
            ) && post.cursor@ == q.push((k + 1) as usize)
            &&& parent matches ExprView::Expand(xs) ==> Some(post.expr@) == replace_at(
                pre.expr@,
                q,
                ExprView::Expand(xs.insert(k + 1, ExprView::Inline(Seq::empty()))),
            ) && post.cursor@ == q.push((k + 1) as usize)
        })
    })
}

/// The effect of quoting the addressed node: it is wrapped in a quotation,
/// the cursor stays.
pub open spec fn quoted(pre: SexprView, post: SexprView) -> bool {
    &&& post.width == pre.width
    &&& post.height == pre.height
    &&& post.cursor@ == pre.cursor@
    &&& no_empty_atoms(pre.expr@) ==> no_empty_atoms(post.expr@)
    &&& Some(post.expr@) == replace_at(
        pre.expr@,
        pre.cursor@,
        ExprView::Quote(Box::new(get_at(pre.expr@, pre.cursor@).unwrap())),
    )
}

/// The effect of wrapping the addressed node in a fresh one-element list and
/// descending onto the original content.
pub open spec fn wrapped(pre: SexprView, post: SexprView) -> bool {
    &&& post.width == pre.width
    &&& post.height == pre.height
    &&& post.cursor@ == pre.cursor@.push(0)
    &&& no_empty_atoms(pre.expr@) ==> no_empty_atoms(post.expr@)
    &&& Some(post.expr@) == replace_at(
        pre.expr@,
        pre.cursor@,
        ExprView::Inline(seq![get_at(pre.expr@, pre.cursor@).unwrap()]),
    )
}

/// The effect of unwrapping a one-element list or a quotation: the wrapper
/// is replaced by its content; any other shape stays.
pub open spec fn unwrapped(pre: SexprView, post: SexprView) -> bool {
    &&& post.width == pre.width
    &&& post.height == pre.height
    &&& post.cursor@ == pre.cursor@
    &&& no_empty_atoms(pre.expr@) ==> no_empty_atoms(post.expr@)
    &&& ({
        let node = get_at(pre.expr@, pre.cursor@).unwrap();
        &&& node matches ExprView::Inline(xs) ==> xs.len() == 1 ==> Some(post.expr@)
            == replace_at(pre.expr@, pre.cursor@, xs[0])
        &&& node matches ExprView::Expand(xs) ==> xs.len() == 1 ==> Some(post.expr@)
            == replace_at(pre.expr@, pre.cursor@, xs[0])
        &&& node matches ExprView::Quote(x) ==> Some(post.expr@) == replace_at(
            pre.expr@,
            pre.cursor@,
            *x,
        )
        &&& (!((node matches ExprView::Inline(xs) && xs.len() == 1) || (
        node matches ExprView::Expand(xs)
            && xs.len() == 1) || node is Quote) ==> post.expr@ == pre.expr@)
    })
}

/// What one consumed input event does to the editor: the dispatch from the
/// event alphabet onto the editing and navigation effects above. The quote
/// character and the quote event first quote, then enter the quotation; the
/// opening parenthesis wraps (which itself descends); every other character
/// appends itself.
pub open spec fn steps_to(pre: SexprView, event: Event, post: SexprView) -> bool {
    match event {
        Event::Edit(ch) => match ch {
            '\'' => exists|mid: SexprView| quoted(pre, mid) && #[trigger] moved_into(mid, post),
            '(' => wrapped(pre, post),
            ')' => moved_out(pre, post),
            ' ' => inserted_after(pre, post),
            _ => appended(pre, post, seq![ch]),
        },
        Event::EditBackspace => deleted_char(pre, post),
        Event::EditDelete => deleted_element(pre, post),
        Event::EditWrap => wrapped(pre, post),
        Event::EditUnwrap => unwrapped(pre, post),
        Event::EditQuote => exists|mid: SexprView|
            quoted(pre, mid) && #[trigger] moved_into(mid, post),
        Event::EditInsert => inserted_after(pre, post),
        Event::NavLeft => moved_out(pre, post),
        Event::NavRight => moved_into(pre, post),
        Event::NavUp => moved_sibling(pre, post, -1),
        Event::NavDown => moved_sibling(pre, post, 1),
        Event::Resize(_, _) => post == pre,
        Event::Terminate => post == pre,
        Event::Unknown => post == pre,
    }
}

impl SexprView {
    /// The cursor invariant: the cursor path always resolves to a node of
    /// the tree; the empty path addresses the root.
    pub open spec fn wf(&self) -> bool {
        get_at(self.expr@, self.cursor@) is Some
    }

    /// The viewport and the tree this view was given, with the cursor on the
    /// root.
    pub fn new(expr: PrettyExpr<Style>, width: usize, height: usize) -> (r: Self)
        ensures
            r.expr@ == expr@,
            r.width == width,
            r.height == height,
            r.cursor@ == Seq::<usize>::empty(),
            r.wf(),
    {
        let r = SexprView { expr, width, height, cursor: Vec::new() };
        proof {
            lemma_get_empty(r.expr@);
        }
        r
    }

    /// Moves the cursor to the parent node; at the root it stays.
    pub fn move_cursor_out_of_list(&mut self)
        requires
            old(self).wf(),
        ensures
            final(self).wf(),
            moved_out(*old(self), *final(self)),
    {
        proof {
            if self.cursor@.len() > 0 {
                lemma_parent_of_valid(self.expr@, self.cursor@);
            }
        }
        let _ = self.cursor.pop();
    }

    /// Moves the cursor onto the first child of the addressed node; when the
    /// node has no children, the cursor stays.
    pub fn move_cursor_into_list(&mut self)
        requires
            old(self).wf(),
        ensures
            final(self).wf(),
            moved_into(*old(self), *final(self)),
    {
        let ghost c0 = self.cursor@;
        self.cursor.push(0);
        if !self.expr.is_valid_path(&self.cursor) {
            let _ = self.cursor.pop();
            proof {
                assert(c0.push(0).drop_last() =~= c0);
            }
        }
    }

    /// Moves the cursor `dir` siblings over, wrapping around both ends of
    /// the parent's child sequence; with the cursor on the root it stays.
    pub fn move_cursor_in_list(&mut self, dir: i8)
        requires
            old(self).wf(),
        ensures
            final(self).wf(),
            moved_sibling(*old(self), *final(self), dir as int),
    {
        if self.cursor.len() == 0 {
            return ;
        }
        proof {
            lemma_parent_of_valid(self.expr@, self.cursor@);
        }
        let ghost c0 = self.cursor@;
        let k = match self.cursor.pop() {
            Some(k) => k,
            None => {
                proof {
                    assert(false);
                }
                0
            },
        };
        let n = match self.expr.get(&self.cursor) {
            Some(parent) => parent.len(),
            None => {
                proof {
                    assert(false);
                }
                1
            },
        };
        let mag: usize = if dir >= 0 {
            dir as usize
        } else {
            (-(dir as i32)) as usize
        };
        proof {
            if dir >= 0 {
                assert(mag as int == dir as int);
            } else {
                assert(mag as int == -(dir as int));
            }
        }
        let md = mag % n;
        let d: usize = if dir >= 0 {
            md
        } else {
            if md == 0 {
                0
            } else {
                n - md
            }
        };
        let j = if k >= n - d {
            k - (n - d)
        } else {
            k + d
        };
        proof {
            let ki = k as int;
            let ni = n as int;
            let diri = dir as int;
            if dir >= 0 {
                lemma_fundamental_div_mod(diri, ni);
                lemma_mod_bound(diri, ni);
                let q = diri / ni;
                assert(q * ni == ni * q) by (nonlinear_arith);
                assert((q + 1) * ni == q * ni + ni) by (nonlinear_arith);
                if ki + (d as int) < ni {
                    lemma_fundamental_div_mod_converse_mod(ki + diri, ni, q, ki + d);
                } else {
                    lemma_fundamental_div_mod_converse_mod(ki + diri, ni, q + 1, ki + d - ni);
                }
            } else {
                let a = -diri;
                lemma_fundamental_div_mod(a, ni);
                lemma_mod_bound(a, ni);
                let m0 = a % ni;
                assert(md as int == m0);
                let q = a / ni;
                assert((-q) * ni == -(ni * q)) by (nonlinear_arith);
                assert((-q - 1) * ni == -(ni * q) - ni) by (nonlinear_arith);
                if m0 == 0 {
                    lemma_fundamental_div_mod_converse_mod(ki + diri, ni, -q, ki);
                } else if ki >= m0 {
                    lemma_fundamental_div_mod_converse_mod(ki + diri, ni, -q, ki - m0);
                } else {
                    lemma_fundamental_div_mod_converse_mod(ki + diri, ni, -q - 1, ki - m0 + ni);
                }
            }
            assert(j as int == wrap_index(ki, diri, ni));
        }
        self.cursor.push(j);
        proof {
            assert(self.cursor@ =~= c0.drop_last() + seq![j]);
            lemma_get_compose(self.expr@, c0.drop_last(), seq![j]);
            lemma_get_single(get_at(self.expr@, c0.drop_last()).unwrap(), j);
            assert(self.cursor@ =~= c0.update(c0.len() - 1, j));
        }
    }

    /// Appends text to the addressed node: onto an atom's text directly, and
    /// into an empty list as a fresh atom that the cursor then descends to.
    /// Labels, quotations and nonempty lists are left unchanged.
    pub fn append_at_cursor(&mut self, postfix: &str)
        requires
            old(self).wf(),
            postfix@.len() > 0,
        ensures
            final(self).wf(),
            appended(*old(self), *final(self), postfix@),
    {
        let replacement: Option<(PrettyExpr<Style>, bool)> = match self.expr.get(&self.cursor) {
            Some(node) => match node {
                PrettyExpr::Atom(s) => {
                    let mut t = s.clone();
                    t.append(postfix);
                    Some((PrettyExpr::Atom(t), false))
                },
                PrettyExpr::Inline(xs) => {
                    if xs.len() == 0 {
                        proof {
                            assert(exprs_view(xs@).len() == xs@.len());
                        }
                        let leaf = PrettyExpr::Atom(postfix.to_owned());
                        let mut v: Vec<PrettyExpr<Style>> = Vec::new();
                        let ghost lv = leaf@;
                        v.push(leaf);
                        let built = PrettyExpr::Inline(v);
                        proof {
                            assert(exprs_view(v@) =~= seq![lv]);
                            assert(built@ == ExprView::Inline(
                                seq![ExprView::<Style>::Atom(postfix@)],
                            ));
                        }
                        Some((built, true))
                    } else {
                        proof {
                            assert(exprs_view(xs@).len() == xs@.len());
                        }
                        None
                    }
                },
                PrettyExpr::Expand(xs) => {
                    if xs.len() == 0 {
                        proof {
                            assert(exprs_view(xs@).len() == xs@.len());
                        }
                        let leaf = PrettyExpr::Atom(postfix.to_owned());
                        let mut v: Vec<PrettyExpr<Style>> = Vec::new();
                        let ghost lv = leaf@;
                        v.push(leaf);
                        let built = PrettyExpr::Expand(v);
                        proof {
                            assert(exprs_view(v@) =~= seq![lv]);
                            assert(built@ == ExprView::Expand(
                                seq![ExprView::<Style>::Atom(postfix@)],
                            ));
                        }
                        Some((built, true))
                    } else {
                        proof {
                            assert(exprs_view(xs@).len() == xs@.len());
                        }
                        None
                    }
                },
                _ => None,
            },
            None => None,
        };
        match replacement {
            Some((node, descend)) => {
                let ghost nv = node@;
                proof {
                    lemma_get_after_replace(self.expr@, self.cursor@, nv);
                    if no_empty_atoms(old(self).expr@) {
                        match nv {
                            ExprView::Inline(xs2) => {
                                assert forall|i: int|
                                    0 <= i < xs2.len() implies no_empty_atoms(
                                    #[trigger] xs2[i],
                                ) by {
                                    assert(xs2[i] == ExprView::<Style>::Atom(postfix@));
                                }
                            },
                            ExprView::Expand(xs2) => {
                                assert forall|i: int|
                                    0 <= i < xs2.len() implies no_empty_atoms(
                                    #[trigger] xs2[i],
                                ) by {
                                    assert(xs2[i] == ExprView::<Style>::Atom(postfix@));
                                }
                            },
                            _ => {},
                        }
                        assert(no_empty_atoms(nv));
                        lemma_replace_clean(old(self).expr@, old(self).cursor@, nv);
                    }
                }
                let ok = self.expr.set_at(&self.cursor, node);
                if descend {
                    let ghost c0 = self.cursor@;
                    self.cursor.push(0);
                    proof {
                        assert(self.cursor@ =~= c0 + seq![0usize]);
                        lemma_get_compose(self.expr@, c0, seq![0usize]);
                        lemma_get_single(get_at(self.expr@, c0).unwrap(), 0);
                    }
                }
            },
            None => {},
        }
    }

    /// Removes the last character of the addressed atom; an atom that would
    /// become empty is replaced by an empty list instead. Any other node is
    /// left unchanged.
    pub fn delete_at_cursor(&mut self)
        requires
            old(self).wf(),
        ensures
            final(self).wf(),
            deleted_char(*old(self), *final(self)),
    {
        let replacement: Option<PrettyExpr<Style>> = match self.expr.get(&self.cursor) {
            Some(node) => match node {
                PrettyExpr::Atom(s) => {
                    let n = s.as_str().unicode_len();
                    if n > 1 {
                        let t = s.as_str().substring_char(0, n - 1).to_owned();
                        proof {
                            assert(t@ =~= s@.drop_last());
                        }
                        Some(PrettyExpr::Atom(t))
                    } else {
                        Some(PrettyExpr::empty_list())
                    }
                },
                _ => None,
            },
            None => None,
        };
        match replacement {
            Some(node) => {
                let ghost nv = node@;
                proof {
                    lemma_get_after_replace(self.expr@, self.cursor@, nv);
                    if no_empty_atoms(old(self).expr@) {
                        assert(no_empty_atoms(nv));
                        lemma_replace_clean(old(self).expr@, old(self).cursor@, nv);
                    }
                }
                let _ = self.expr.set_at(&self.cursor, node);
            },
            None => {},
        }
    }

    /// Marks the addressed node as quoted data.
    pub fn quote_cursor(&mut self)
        requires
            old(self).wf(),
        ensures
            final(self).wf(),
            quoted(*old(self), *final(self)),
    {
        let replacement: PrettyExpr<Style> = match self.expr.get(&self.cursor) {
            Some(node) => PrettyExpr::quote(node.duplicate()),
            None => {
                proof {
                    assert(false);
                }
                PrettyExpr::empty_list()
            },
        };
        let ghost nv = replacement@;
        proof {
            lemma_get_after_replace(self.expr@, self.cursor@, nv);
            if no_empty_atoms(old(self).expr@) {
                lemma_get_clean(old(self).expr@, old(self).cursor@);
                lemma_replace_clean(old(self).expr@, old(self).cursor@, nv);
            }
        }
        let _ = self.expr.set_at(&self.cursor, replacement);
    }

    /// Replaces the addressed node with a one-element list holding it, and
    /// descends the cursor into that list so editing continues on the
    /// original content.
    pub fn wrap_cursor_in_list(&mut self)
        requires
            old(self).wf(),
        ensures
            final(self).wf(),
            wrapped(*old(self), *final(self)),
    {
        let replacement: PrettyExpr<Style> = match self.expr.get(&self.cursor) {
            Some(node) => {
                let inner = node.duplicate();
                let ghost iv = inner@;
                let mut v: Vec<PrettyExpr<Style>> = Vec::new();
                v.push(inner);
                proof {
                    assert(exprs_view(v@) =~= seq![iv]);
                }
                PrettyExpr::Inline(v)
            },
            None => {
                proof {
                    assert(false);
                }
                PrettyExpr::empty_list()
            },
        };
        let ghost nv = replacement@;
        proof {
            lemma_get_after_replace(self.expr@, self.cursor@, nv);
            if no_empty_atoms(old(self).expr@) {
                lemma_get_clean(old(self).expr@, old(self).cursor@);
                assert(no_empty_atoms(nv));
                lemma_replace_clean(old(self).expr@, old(self).cursor@, nv);
            }
        }
        let _ = self.expr.set_at(&self.cursor, replacement);
        let ghost c0 = self.cursor@;
        self.cursor.push(0);
        proof {
            assert(self.cursor@ =~= c0 + seq![0usize]);
            lemma_get_compose(self.expr@, c0, seq![0usize]);
            lemma_get_single(get_at(self.expr@, c0).unwrap(), 0);
        }
    }

    /// Replaces a one-element list or a quotation by its single content
    /// node; any other shape is left unchanged.
    #[verifier::rlimit(30)]
    pub fn unwrap_unary_list_at_cursor(&mut self)
        requires
            old(self).wf(),
        ensures
            final(self).wf(),
            unwrapped(*old(self), *final(self)),
    {
        let replacement: Option<PrettyExpr<Style>> = match self.expr.get(&self.cursor) {
            Some(node) => match node {
                PrettyExpr::Inline(xs) => {
                    if xs.len() == 1 {
                        let built = xs[0].duplicate();
                        proof {
                            assert(exprs_view(xs@).len() == xs@.len());
                            assert(built@ == exprs_view(xs@)[0]);
                        }
                        Some(built)
                    } else {
                        proof {
                            assert(exprs_view(xs@).len() == xs@.len());
                        }
                        None
                    }
                },
                PrettyExpr::Expand(xs) => {
                    if xs.len() == 1 {
                        let built = xs[0].duplicate();
                        proof {
                            assert(exprs_view(xs@).len() == xs@.len());
                            assert(built@ == exprs_view(xs@)[0]);
                        }
                        Some(built)
                    } else {
                        proof {
                            assert(exprs_view(xs@).len() == xs@.len());
                        }
                        None
                    }
                },
                PrettyExpr::Quote(x) => Some(x.duplicate()),
                _ => None,
            },
            None => None,
        };
        match replacement {
            Some(node) => {
                let ghost nv = node@;
                proof {
                    lemma_get_after_replace(self.expr@, self.cursor@, nv);
                    lemma_get_empty(nv);
                    if no_empty_atoms(old(self).expr@) {
                        lemma_get_clean(old(self).expr@, old(self).cursor@);
                        let node_s = get_at(old(self).expr@, old(self).cursor@).unwrap();
                        match node_s {
                            ExprView::Inline(vs) => {
                                assert(no_empty_atoms(vs[0]));
                            },
                            ExprView::Expand(vs) => {
                                assert(no_empty_atoms(vs[0]));
                            },
                            ExprView::Quote(bx) => {
                                assert(no_empty_atoms(*bx));
                            },
                            _ => {},
                        }
                        assert(no_empty_atoms(nv));
                        lemma_replace_clean(old(self).expr@, old(self).cursor@, nv);
                    }
                }
                let _ = self.expr.set_at(&self.cursor, node);
            },
            None => {},
        }
    }

    /// Removes the addressed element from its parent's child sequence. When
    /// the parent becomes empty the cursor pops onto it; otherwise the
    /// cursor's final index is clamped onto a surviving sibling. With the
    /// cursor on the root, or inside a quotation, nothing changes.
    #[verifier::rlimit(30)]
    pub fn delete_cursor_element(&mut self)
        requires
            old(self).wf(),
        ensures
            final(self).wf(),
            deleted_element(*old(self), *final(self)),
    {
        if self.cursor.len() == 0 {
            return ;
        }
        proof {
            lemma_parent_of_valid(self.expr@, self.cursor@);
        }
        let ghost c0 = self.cursor@;
        let k = match self.cursor.pop() {
            Some(k) => k,
            None => {
                proof {
                    assert(false);
                }
                0
            },
        };
        proof {
            assert(self.cursor@ =~= c0.drop_last());
            lemma_get_not_style(self.expr@, self.cursor@);
        }
        let replacement: Option<(PrettyExpr<Style>, usize)> = match self.expr.get(&self.cursor) {
            Some(parent) => match parent {
                PrettyExpr::Inline(xs) => {
                    // pins the child count to a machine word for the index
                    // arithmetic below
                    let xlen = xs.len();
                    proof {
                        assert(exprs_view(xs@).len() == xs@.len());
                        assert((k as nat) < xs@.len());
                    }
                    let mut v = PrettyExpr::duplicate_list(xs);
                    let ghost v0 = v@;
                    proof {
                        assert(v@.len() == xs@.len());
                    }
                    let _ = v.remove(k);
                    proof {
                        assert(v@ =~= v0.remove(k as int));
                        assert(exprs_view(v@) =~= exprs_view(xs@).remove(k as int));
                    }
                    let newlen = v.len();
                    Some((PrettyExpr::Inline(v), newlen))
                },
                PrettyExpr::Expand(xs) => {
                    // pins the child count to a machine word for the index
                    // arithmetic below
                    let xlen = xs.len();
                    proof {
                        assert(exprs_view(xs@).len() == xs@.len());
                        assert((k as nat) < xs@.len());
                    }
                    let mut v = PrettyExpr::duplicate_list(xs);
                    let ghost v0 = v@;
                    proof {
                        assert(v@.len() == xs@.len());
                    }
                    let _ = v.remove(k);
                    proof {
                        assert(v@ =~= v0.remove(k as int));
                        assert(exprs_view(v@) =~= exprs_view(xs@).remove(k as int));
                    }
                    let newlen = v.len();
                    Some((PrettyExpr::Expand(v), newlen))
                },
                PrettyExpr::Quote(_) => None,
                _ => {
                    proof {
                        assert(false);
                    }
                    None
                },
            },
            None => {
                proof {
                    assert(false);
                }
                None
            },
        };
        match replacement {
            Some((node, newlen)) => {
                let ghost nv = node@;
                proof {
                    lemma_get_after_replace(self.expr@, self.cursor@, nv);
                    if no_empty_atoms(old(self).expr@) {
                        lemma_get_clean(old(self).expr@, self.cursor@);
                        let parent_s = get_at(old(self).expr@, self.cursor@).unwrap();
                        match parent_s {
                            ExprView::Inline(vs) => {
                                vs.remove_ensures(k as int);
                                assert forall|i: int|
                                    0 <= i < vs.remove(k as int).len() implies no_empty_atoms(
                                    #[trigger] vs.remove(k as int)[i],
                                ) by {
                                    if i < k {
                                        assert(vs.remove(k as int)[i] == vs[i]);
                                    } else {
                                        assert(vs.remove(k as int)[i] == vs[i + 1]);
                                    }
                                }
                            },
                            ExprView::Expand(vs) => {
                                vs.remove_ensures(k as int);
                                assert forall|i: int|
                                    0 <= i < vs.remove(k as int).len() implies no_empty_atoms(
                                    #[trigger] vs.remove(k as int)[i],
                                ) by {
                                    if i < k {
                                        assert(vs.remove(k as int)[i] == vs[i]);
                                    } else {
                                        assert(vs.remove(k as int)[i] == vs[i + 1]);
                                    }
                                }
                            },
                            _ => {},
                        }
                        assert(no_empty_atoms(nv));
                        lemma_replace_clean(old(self).expr@, self.cursor@, nv);
                    }
                }
                let _ = self.expr.set_at(&self.cursor, node);
                if newlen > 0 {
                    let ghost q = self.cursor@;
                    let j = if k < newlen {
                        k
                    } else {
                        newlen - 1
                    };
                    self.cursor.push(j);
                    proof {
                        assert(self.cursor@ =~= q + seq![j]);
                        lemma_get_compose(self.expr@, q, seq![j]);
                        lemma_get_single(get_at(self.expr@, q).unwrap(), j);
                    }
                }
            },
            None => {
                self.cursor.push(k);
                proof {
                    assert(self.cursor@ =~= c0);
                }
            },
        }
    }

    /// Inserts a fresh empty list right after the addressed element and moves
    /// the cursor onto it. A quotation is a unit, not a splice point: while
    /// the parent is a quotation the insertion target is shifted outward one
    /// level. With the target on the root, only that shift remains.
    pub fn insert_element_after_cursor(&mut self)
        requires
            old(self).wf(),
        ensures
            final(self).wf(),
            inserted_after(*old(self), *final(self)),
    {
        let ghost e0 = self.expr@;
        let ghost c_ent = self.cursor@;
        let ghost w0 = self.width;
        let ghost h0 = self.height;
        let ghost t = splice_path(e0, c_ent);
        loop
            invariant
                self.wf(),
                self.expr@ == e0,
                self.width == w0,
                self.height == h0,
                t == splice_path(e0, self.cursor@),
            ensures
                self.wf(),
                self.expr@ == e0,
                self.width == w0,
                self.height == h0,
                self.cursor@ == t,
            decreases self.cursor@.len(),
        {
            if self.cursor.len() == 0 {
                break ;
            }
            proof {
                lemma_parent_of_valid(self.expr@, self.cursor@);
            }
            let ghost c0 = self.cursor@;
            let k = match self.cursor.pop() {
                Some(k) => k,
                None => {
                    proof {
                        assert(false);
                    }
                    0
                },
            };
            proof {
                assert(self.cursor@ =~= c0.drop_last());
            }
            let parent_is_quote = match self.expr.get(&self.cursor) {
                Some(parent) => match parent {
                    PrettyExpr::Quote(_) => true,
                    _ => false,
                },
                None => {
                    proof {
                        assert(false);
                    }
                    false
                },
            };
            if !parent_is_quote {
                self.cursor.push(k);
                proof {
                    assert(self.cursor@ =~= c0);
                }
                break ;
            }
        }
        if self.cursor.len() == 0 {
            return ;
        }
        proof {
            lemma_parent_of_valid(self.expr@, self.cursor@);
            lemma_get_not_style(self.expr@, self.cursor@.drop_last());
        }
        let ghost c0 = self.cursor@;
        let k = match self.cursor.pop() {
            Some(k) => k,
            None => {
                proof {
                    assert(false);
                }
                0
            },
        };
        proof {
            assert(self.cursor@ =~= c0.drop_last());
        }
        let replacement: Option<PrettyExpr<Style>> = match self.expr.get(&self.cursor) {
            Some(parent) => match parent {
                PrettyExpr::Inline(xs) => {
                    // pins the child count to a machine word for the index
                    // arithmetic below
                    let xlen = xs.len();
                    proof {
                        assert(exprs_view(xs@).len() == xs@.len());
                        assert((k as nat) < xs@.len());
                    }
                    let mut v = PrettyExpr::duplicate_list(xs);
                    proof {
                        assert(v@.len() == xs@.len());
                    }
                    v.insert(k + 1, PrettyExpr::empty_list());
                    proof {
                        assert(exprs_view(v@) =~= exprs_view(xs@).insert(
                            k + 1,
                            ExprView::Inline(Seq::empty()),
                        ));
                    }
                    Some(PrettyExpr::Inline(v))
                },
                PrettyExpr::Expand(xs) => {
                    // pins the child count to a machine word for the index
                    // arithmetic below
                    let xlen = xs.len();
                    proof {
                        assert(exprs_view(xs@).len() == xs@.len());
                        assert((k as nat) < xs@.len());
                    }
                    let mut v = PrettyExpr::duplicate_list(xs);
                    proof {
                        assert(v@.len() == xs@.len());
                    }
                    v.insert(k + 1, PrettyExpr::empty_list());
                    proof {
                        assert(exprs_view(v@) =~= exprs_view(xs@).insert(
                            k + 1,
                            ExprView::Inline(Seq::empty()),
                        ));
                    }
                    Some(PrettyExpr::Expand(v))
                },
                _ => None,
            },
            None => {
                proof {
                    assert(false);
                }
                None
            },
        };
        match replacement {
            Some(node) => {
                let ghost nv = node@;
                proof {
                    lemma_get_after_replace(self.expr@, self.cursor@, nv);
                    if no_empty_atoms(old(self).expr@) {
                        lemma_get_clean(old(self).expr@, self.cursor@);
                        let parent_s = get_at(old(self).expr@, self.cursor@).unwrap();
                        let filler = ExprView::<Style>::Inline(Seq::empty());
                        match parent_s {
                            ExprView::Inline(xs) => {
                                xs.insert_ensures(k + 1, filler);
                                assert forall|i: int|
                                    0 <= i < xs.insert(k + 1, filler).len() implies no_empty_atoms(
                                    #[trigger] xs.insert(k + 1, filler)[i],
                                ) by {
                                    if i < k + 1 {
                                        assert(xs.insert(k + 1, filler)[i] == xs[i]);
                                    } else if i == k + 1 {
                                        assert(xs.insert(k + 1, filler)[i] == filler);
                                    } else {
                                        assert(xs.insert(k + 1, filler)[i] == xs[i - 1]);
                                    }
                                }
                            },
                            ExprView::Expand(xs) => {
                                xs.insert_ensures(k + 1, filler);
                                assert forall|i: int|
                                    0 <= i < xs.insert(k + 1, filler).len() implies no_empty_atoms(
                                    #[trigger] xs.insert(k + 1, filler)[i],
                                ) by {
                                    if i < k + 1 {
                                        assert(xs.insert(k + 1, filler)[i] == xs[i]);
                                    } else if i == k + 1 {
                                        assert(xs.insert(k + 1, filler)[i] == filler);
                                    } else {
                                        assert(xs.insert(k + 1, filler)[i] == xs[i - 1]);
                                    }
                                }
                            },
                            _ => {},
                        }
                        assert(no_empty_atoms(nv));
                        lemma_replace_clean(old(self).expr@, self.cursor@, nv);
                    }
                }
                let _ = self.expr.set_at(&self.cursor, node);
                let ghost q = self.cursor@;
                self.cursor.push(k + 1);
                proof {
                    assert(self.cursor@ =~= q + seq![(k + 1) as usize]);
                    lemma_get_compose(self.expr@, q, seq![(k + 1) as usize]);
                    lemma_get_single(get_at(self.expr@, q).unwrap(), (k + 1) as usize);
                }
            },
            None => {
                self.cursor.push(k);
                proof {
                    assert(self.cursor@ =~= c0);
                }
            },
        }
    }
}

impl EventHandler<Event> for SexprView {
    /// The cursor invariant is what every event must preserve.
    open spec fn inv(&self) -> bool {
        self.wf()
    }

    /// The editor acts on every editing and navigation event; resizing,
    /// termination and undecoded input are the event loop's business.
    open spec fn consumes(&self, event: Event) -> bool {
        !(event is Resize || event is Terminate || event is Unknown)
    }

    /// Each consumed event performs exactly its operation: the dispatch
    /// relation `steps_to`.
    open spec fn step(&self, event: Event, post: Self) -> bool {
        steps_to(*self, event, post)
    }

    /// Maps one input event onto the editing or navigation primitive it
    /// stands for. Printable characters append to the addressed text, with
    /// the quote, parenthesis and space characters bound to the structural
    /// operations. Events the editor does not act on are left to the caller.
    fn handle_event(&mut self, event: &Event) -> (r: bool) {
        match event {
            Event::Edit(ch) => {
                match *ch {
                    '\'' => {
                        self.quote_cursor();
                        let ghost mid = *self;
                        self.move_cursor_into_list();
                        proof {
                            assert(quoted(*old(self), mid) && moved_into(mid, *self));
                        }
                    },
                    '(' => {
                        self.wrap_cursor_in_list();
                    },
                    ')' => {
                        self.move_cursor_out_of_list();
                    },
                    ' ' => {
                        self.insert_element_after_cursor();
                    },
                    _ => {
                        let mut s = String::new();
                        push_char(&mut s, *ch);
                        proof {
                            assert(s@ =~= seq![*ch]);
                        }
                        self.append_at_cursor(s.as_str());
                    },
                }
                true
            },
            Event::EditBackspace => {
                self.delete_at_cursor();
                true
            },
            Event::EditDelete => {
                self.delete_cursor_element();
                true
            },
            Event::EditWrap => {
                self.wrap_cursor_in_list();
                true
            },
            Event::EditUnwrap => {
                self.unwrap_unary_list_at_cursor();
                true
            },
            Event::EditQuote => {
                self.quote_cursor();
                let ghost mid = *self;
                self.move_cursor_into_list();
                proof {
                    assert(quoted(*old(self), mid) && moved_into(mid, *self));
                }
                true
            },
            Event::EditInsert => {
                self.insert_element_after_cursor();
                true
            },
            Event::NavLeft => {
                self.move_cursor_out_of_list();
                true
            },
            Event::NavRight => {
                self.move_cursor_into_list();
                true
            },
            Event::NavUp => {
                self.move_cursor_in_list(-1);
                true
            },
            Event::NavDown => {
                self.move_cursor_in_list(1);
                true
            },
            Event::Resize(_, _) => false,
            Event::Terminate => false,
            Event::Unknown => false,
        }
    }
}

} // verus!
