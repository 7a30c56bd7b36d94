//! The expression tree, its layout engine, and the sink interface the engine
//! writes into.

use vstd::prelude::*;

use crate::model::{
    cap_usize, emit, emit_expanded_tail, emit_inline_tail, expand_indent, get_at, is_atomic,
    lemma_child_width_le, lemma_emit_expanded_tail_take, lemma_emit_inline_tail_take,
    lemma_expanded_tail_take_prefix, lemma_get_replace_some, lemma_inline_tail_take_prefix,
    lemma_prefix_concat, lemma_prefix_concat_mono, lemma_prefix_trans, lemma_prep_seq_take,
    lemma_received_all, lemma_received_chain, lemma_received_none, lemma_text_of_push,
    lemma_widths_sum_take, len_of, prep, prep_seq, received_prefix, replace_at, spaces, text_of,
    text_of_cmd, widths_sum, width_of, ExprView, SinkCmd,
};

verus! {

/// A node of a nested-list expression tree, generic over an opaque style tag
/// type `T`. `Atom` is editable leaf text (never empty), `Stat` a fixed
/// label, `Inline` and `Expand` are the two renderings of a list, `Style`
/// wraps a node with a style tag, and `Quote` marks quoted data.
pub enum PrettyExpr<T> {
    Atom(String),
    Stat(&'static str),
    Inline(Vec<PrettyExpr<T>>),
    Expand(Vec<PrettyExpr<T>>),
    Style(T, Box<PrettyExpr<T>>),
    Quote(Box<PrettyExpr<T>>),
}

/// The ghost tree that an expression tree stands for.
pub open spec fn expr_view<T>(pe: PrettyExpr<T>) -> ExprView<T>
    decreases pe,
{
    match pe {
        PrettyExpr::Atom(s) => ExprView::Atom(s@),
        PrettyExpr::Stat(s) => ExprView::Stat(s@),
        PrettyExpr::Inline(xs) => ExprView::Inline(exprs_view(xs@)),
        PrettyExpr::Expand(xs) => ExprView::Expand(exprs_view(xs@)),
        PrettyExpr::Style(t, x) => ExprView::Style(t, Box::new(expr_view(*x))),
        PrettyExpr::Quote(x) => ExprView::Quote(Box::new(expr_view(*x))),
    }
}

/// The ghost trees of a sequence of expression trees, in order. The bound on
/// the index keeps the recursive call below the sequence in the termination
/// order; out of range the value is immaterial.
pub open spec fn exprs_view<T>(xs: Seq<PrettyExpr<T>>) -> Seq<ExprView<T>>
    decreases xs,
{
    Seq::new(
        xs.len(),
        |i: int|
            if 0 <= i < xs.len() {
                expr_view(xs[i])
            } else {
                ExprView::Inline(Seq::empty())
            },
    )
}

impl<T> View for PrettyExpr<T> {
    type V = ExprView<T>;

    open spec fn view(&self) -> ExprView<T> {
        expr_view(*self)
    }
}

/// Addition on `usize` that sticks at the maximum instead of overflowing.
pub(crate) fn sat_add(a: usize, b: usize) -> (r: usize)
    ensures
        r as nat == cap_usize(a as nat + b as nat),
{
    if a > usize::MAX - b {
        usize::MAX
    } else {
        a + b
    }
}

impl<T> PrettyExpr<T> {
    /// A list node, rendered inline until the layout engine decides otherwise.
    pub fn list(xs: Vec<PrettyExpr<T>>) -> (r: Self)
        ensures
            r@ == ExprView::Inline(exprs_view(xs@)),
    {
        PrettyExpr::Inline(xs)
    }

    /// A list node with no elements.
    pub fn empty_list() -> (r: Self)
        ensures
            r@ == ExprView::<T>::Inline(Seq::empty()),
    {
        let r = PrettyExpr::Inline(Vec::new());
        proof {
            assert(exprs_view(Seq::<PrettyExpr<T>>::empty()) =~= Seq::<ExprView<T>>::empty());
        }
        r
    }

    /// A node wrapped with a style tag.
    pub fn styled(style: T, exp: PrettyExpr<T>) -> (r: Self)
        ensures
            r@ == ExprView::Style(style, Box::new(exp@)),
    {
        PrettyExpr::Style(style, Box::new(exp))
    }

    /// A node wrapped as quoted data.
    pub fn quote(exp: PrettyExpr<T>) -> (r: Self)
        ensures
            r@ == ExprView::Quote(Box::new(exp@)),
    {
        PrettyExpr::Quote(Box::new(exp))
    }

    /// Whether this node is a leaf (atom or label), looking through style
    /// wrappers.
    pub fn is_atom(&self) -> (r: bool)
        ensures
            r == is_atomic(self@),
        decreases *self,
    {
        match self {
            PrettyExpr::Atom(_) => true,
            PrettyExpr::Stat(_) => true,
            PrettyExpr::Inline(_) => false,
            PrettyExpr::Expand(_) => false,
            PrettyExpr::Style(_, x) => x.is_atom(),
            PrettyExpr::Quote(_) => false,
        }
    }

    /// The number of addressable children of this node.
    pub fn len(&self) -> (r: usize)
        ensures
            r == len_of(self@),
        decreases *self,
    {
        match self {
            PrettyExpr::Atom(_) => 0,
            PrettyExpr::Stat(_) => 0,
            PrettyExpr::Inline(xs) => {
                assert(len_of(self@) == exprs_view(xs@).len());
                xs.len()
            },
            PrettyExpr::Expand(xs) => {
                assert(len_of(self@) == exprs_view(xs@).len());
                xs.len()
            },
            PrettyExpr::Style(_, x) => x.len(),
            PrettyExpr::Quote(_) => 1,
        }
    }

    /// The number of characters this node occupies when rendered on a single
    /// line, capped at the largest `usize` value.
    pub fn inline_width(&self) -> (w: usize)
        ensures
            w as nat == cap_usize(width_of(self@)),
        decreases *self,
    {
        match self {
            PrettyExpr::Atom(s) => s.as_str().unicode_len(),
            PrettyExpr::Stat(s) => s.unicode_len(),
            PrettyExpr::Inline(xs) => Self::width_of_list(xs),
            PrettyExpr::Expand(xs) => Self::width_of_list(xs),
            PrettyExpr::Style(_, x) => x.inline_width(),
            PrettyExpr::Quote(x) => sat_add(2, x.inline_width()),
        }
    }

    /// The inline width of a list node with the given children, capped at the
    /// largest `usize` value.
    fn width_of_list(xs: &Vec<PrettyExpr<T>>) -> (w: usize)
        ensures
            w as nat == cap_usize(
                2 + widths_sum(exprs_view(xs@)) + if xs@.len() < 2 {
                    0nat
                } else {
                    (xs@.len() - 1) as nat
                },
            ),
        decreases xs@,
    {
        let ghost vs = exprs_view(xs@);
        let ghost seps: nat = if xs@.len() < 2 {
            0nat
        } else {
            (xs@.len() - 1) as nat
        };
        let mut w: usize = if xs.len() < 2 {
            2
        } else {
            sat_add(2, xs.len() - 1)
        };
        let mut i: usize = 0;
        proof {
            assert(vs.take(0) =~= Seq::<ExprView<T>>::empty());
        }
        while i < xs.len()
            invariant
                i <= xs@.len(),
                vs == exprs_view(xs@),
                vs.len() == xs@.len(),
                seps == if xs@.len() < 2 {
                    0nat
                } else {
                    (xs@.len() - 1) as nat
                },
                w as nat == cap_usize(2 + seps + widths_sum(vs.take(i as int))),
            decreases xs@.len() - i,
        {
            let cw = xs[i].inline_width();
            proof {
                lemma_widths_sum_take(vs, i as int);
            }
            w = sat_add(w, cw);
            i = i + 1;
        }
        proof {
            assert(vs.take(xs@.len() as int) =~= vs);
        }
        w
    }
}

impl<T: Copy> PrettyExpr<T> {
    /// A structurally identical copy of this node.
    pub fn duplicate(&self) -> (r: Self)
        ensures
            r@ == self@,
        decreases *self,
    {
        match self {
            PrettyExpr::Atom(s) => PrettyExpr::Atom(s.clone()),
            PrettyExpr::Stat(s) => PrettyExpr::Stat(s),
            PrettyExpr::Inline(xs) => PrettyExpr::Inline(Self::duplicate_list(xs)),
            PrettyExpr::Expand(xs) => PrettyExpr::Expand(Self::duplicate_list(xs)),
            PrettyExpr::Style(t, x) => PrettyExpr::Style(*t, Box::new(x.duplicate())),
            PrettyExpr::Quote(x) => PrettyExpr::Quote(Box::new(x.duplicate())),
        }
    }

    /// Copies of all children, in order.
    pub(crate) fn duplicate_list(xs: &Vec<PrettyExpr<T>>) -> (r: Vec<PrettyExpr<T>>)
        ensures
            exprs_view(r@) == exprs_view(xs@),
        decreases xs@,
    {
        let mut out: Vec<PrettyExpr<T>> = Vec::new();
        let mut i: usize = 0;
        while i < xs.len()
            invariant
                i <= xs@.len(),
                out@.len() == i,
                forall|j: int| 0 <= j < i ==> out@[j]@ == xs@[j]@,
            decreases xs@.len() - i,
        {
            let copy = xs[i].duplicate();
            out.push(copy);
            i = i + 1;
        }
        proof {
            assert(exprs_view(out@) =~= exprs_view(xs@));
        }
        out
    }
}

impl<T> PrettyExpr<T> {
    /// Whether `path` resolves to a node of this tree.
    pub fn is_valid_path(&self, path: &Vec<usize>) -> (r: bool)
        ensures
            r == (get_at(self@, path@) is Some),
    {
        self.get(path).is_some()
    }

    /// The node addressed by `path`, if the path resolves.
    pub fn get<'a>(&'a self, path: &Vec<usize>) -> (r: Option<&'a Self>)
        ensures
            match r {
                Some(x) => get_at(self@, path@) == Some(x@),
                None => get_at(self@, path@) is None,
            },
    {
        proof {
            assert(path@.skip(0) =~= path@);
        }
        self.get_from(path, 0)
    }

    /// The node addressed by the path segments from position `i` on.
    fn get_from<'a>(&'a self, path: &Vec<usize>, i: usize) -> (r: Option<&'a Self>)
        requires
            i <= path@.len(),
        ensures
            match r {
                Some(x) => get_at(self@, path@.skip(i as int)) == Some(x@),
                None => get_at(self@, path@.skip(i as int)) is None,
            },
        decreases *self,
    {
        proof {
            if i == path@.len() {
                assert(path@.skip(i as int) =~= Seq::<usize>::empty());
            } else {
                assert(path@.skip(i as int).drop_first() =~= path@.skip(i as int + 1));
            }
        }
        match self {
            PrettyExpr::Style(_, x) => x.get_from(path, i),
            PrettyExpr::Atom(_) => if i == path.len() {
                Some(self)
            } else {
                None
            },
            PrettyExpr::Stat(_) => if i == path.len() {
                Some(self)
            } else {
                None
            },
            PrettyExpr::Inline(xs) => {
                if i == path.len() {
                    assert(get_at(self@, path@.skip(i as int)) == Some(self@));
                    Some(self)
                } else {
                    let p = path[i];
                    if p < xs.len() {
                        let r = xs[p].get_from(path, i + 1);
                        proof {
                            assert(xs[p as int]@ == exprs_view(xs@)[p as int]);
                            assert(get_at(self@, path@.skip(i as int)) == get_at(
                                xs[p as int]@,
                                path@.skip(i as int + 1),
                            ));
                        }
                        r
                    } else {
                        assert(get_at(self@, path@.skip(i as int)) is None);
                        None
                    }
                }
            },
            PrettyExpr::Expand(xs) => {
                if i == path.len() {
                    assert(get_at(self@, path@.skip(i as int)) == Some(self@));
                    Some(self)
                } else {
                    let p = path[i];
                    if p < xs.len() {
                        let r = xs[p].get_from(path, i + 1);
                        proof {
                            assert(xs[p as int]@ == exprs_view(xs@)[p as int]);
                            assert(get_at(self@, path@.skip(i as int)) == get_at(
                                xs[p as int]@,
                                path@.skip(i as int + 1),
                            ));
                        }
                        r
                    } else {
                        proof {
                            assert(exprs_view(xs@).len() == xs@.len());
                        }
                        assert(get_at(self@, path@.skip(i as int)) is None);
                        None
                    }
                }
            },
            PrettyExpr::Quote(x) => {
                if i == path.len() {
                    assert(get_at(self@, path@.skip(i as int)) == Some(self@));
                    Some(self)
                } else if path[i] == 0 {
                    let r = x.get_from(path, i + 1);
                    proof {
                        assert(get_at(self@, path@.skip(i as int)) == get_at(
                            x@,
                            path@.skip(i as int + 1),
                        ));
                    }
                    r
                } else {
                    assert(get_at(self@, path@.skip(i as int)) is None);
                    None
                }
            },
        }
    }

    /// Replaces the node addressed by `path` with `node`. Returns whether the
    /// path resolved; when it did not, the tree is unchanged and `node` is
    /// discarded.
    pub fn set_at(&mut self, path: &Vec<usize>, node: Self) -> (ok: bool)
        ensures
            ok == (replace_at(old(self)@, path@, node@) is Some),
            ok ==> Some(final(self)@) == replace_at(old(self)@, path@, node@),
            !ok ==> final(self)@ == old(self)@,
    {
        proof {
            assert(path@.skip(0) =~= path@);
        }
        self.set_at_from(path, 0, node)
    }

    /// Replaces the node addressed by the path segments from position `i` on.
    fn set_at_from(&mut self, path: &Vec<usize>, i: usize, node: Self) -> (ok: bool)
        requires
            i <= path@.len(),
        ensures
            ok == (replace_at(old(self)@, path@.skip(i as int), node@) is Some),
            ok ==> Some(final(self)@) == replace_at(old(self)@, path@.skip(i as int), node@),
            !ok ==> final(self)@ == old(self)@,
        decreases *old(self),
    {
        proof {
            if i == path@.len() {
                assert(path@.skip(i as int) =~= Seq::<usize>::empty());
            } else {
                assert(path@.skip(i as int).drop_first() =~= path@.skip(i as int + 1));
                assert(path@.skip(i as int)[0] == path@[i as int]);
            }
        }
        match self {
            PrettyExpr::Style(_, x) => x.set_at_from(path, i, node),
            PrettyExpr::Atom(_) => if i == path.len() {
                *self = node;
                true
            } else {
                false
            },
            PrettyExpr::Stat(_) => if i == path.len() {
                *self = node;
                true
            } else {
                false
            },
            PrettyExpr::Inline(xs) => {
                if i == path.len() {
                    *self = node;
                    true
                } else if path[i] < xs.len() {
                    let p = path[i];
                    let ghost xs0 = xs@;
                    let child = &mut xs[p];
                    let ok = child.set_at_from(path, i + 1, node);
                    proof {
                        if ok {
                            assert(exprs_view(xs@) =~= exprs_view(xs0).update(
                                p as int,
                                replace_at(xs0[p as int]@, path@.skip(i as int + 1), node@)
                                    .unwrap(),
                            ));
                        } else {
                            assert(exprs_view(xs@) =~= exprs_view(xs0));
                        }
                    }
                    ok
                } else {
                    false
                }
            },
            PrettyExpr::Expand(xs) => {
                if i == path.len() {
                    *self = node;
                    true
                } else if path[i] < xs.len() {
                    let p = path[i];
                    let ghost xs0 = xs@;
                    let child = &mut xs[p];
                    let ok = child.set_at_from(path, i + 1, node);
                    proof {
                        if ok {
                            assert(exprs_view(xs@) =~= exprs_view(xs0).update(
                                p as int,
                                replace_at(xs0[p as int]@, path@.skip(i as int + 1), node@)
                                    .unwrap(),
                            ));
                        } else {
                            assert(exprs_view(xs@) =~= exprs_view(xs0));
                        }
                    }
                    ok
                } else {
                    false
                }
            },
            PrettyExpr::Quote(x) => {
                if i == path.len() {
                    *self = node;
                    true
                } else if path[i] == 0 {
                    x.set_at_from(path, i + 1, node)
                } else {
                    false
                }
            },
        }
    }
}

impl<T: Copy> PrettyExpr<T> {
    /// The tree with the node addressed by `path` wrapped in the given style
    /// tag, inside any style wrappers already standing there; `None` when the
    /// path does not resolve.
    pub fn with_style(self, path: &Vec<usize>, style: T) -> (r: Option<Self>)
        ensures
            match get_at(self@, path@) {
                Some(x) => (r matches Some(y) && Some(y@) == replace_at(
                    self@,
                    path@,
                    ExprView::Style(style, Box::new(x)),
                )),
                None => r is None,
            },
    {
        let found = match self.get(path) {
            Some(node) => Some(node.duplicate()),
            None => None,
        };
        match found {
            Some(dup) => {
                let mut tree = self;
                proof {
                    lemma_get_replace_some(
                        tree@,
                        path@,
                        ExprView::Style(style, Box::new(dup@)),
                    );
                }
                let ok = tree.set_at(path, PrettyExpr::Style(style, Box::new(dup)));
                if ok {
                    Some(tree)
                } else {
                    None
                }
            },
            None => None,
        }
    }
}

/// Layout configuration: the character budget for rendering a list on one
/// line, and the number of columns arguments are indented after an atomic
/// list head.
#[derive(Clone, Copy)]
pub struct PrettyFormatter {
    pub max_code_width: usize,
    pub default_indent: usize,
}

impl Default for PrettyFormatter {
    /// The configuration used when none is given: a budget of fifteen
    /// characters and an indent step of two.
    fn default() -> (r: Self)
        ensures
            r.max_code_width == 15,
            r.default_indent == 2,
    {
        PrettyFormatter { max_code_width: 15, default_indent: 2 }
    }
}

impl PrettyFormatter {
    pub fn new(max_code_width: usize, default_indent: usize) -> (r: Self)
        ensures
            r.max_code_width == max_code_width,
            r.default_indent == default_indent,
    {
        PrettyFormatter { max_code_width, default_indent }
    }

    /// Rewrites every inline list that exceeds the width budget to an
    /// exploded list, recursively; a list that fits is left as it stands.
    pub fn prepare<T: Copy>(&self, pe: PrettyExpr<T>) -> (r: PrettyExpr<T>)
        requires
            width_of(pe@) <= usize::MAX || self.max_code_width < usize::MAX,
        ensures
            r@ == prep(pe@, self.max_code_width as nat),
    {
        self.prepare_ref(&pe)
    }

    /// As `prepare`, building a fresh tree from a borrowed one.
    fn prepare_ref<T: Copy>(&self, pe: &PrettyExpr<T>) -> (r: PrettyExpr<T>)
        requires
            width_of(pe@) <= usize::MAX || self.max_code_width < usize::MAX,
        ensures
            r@ == prep(pe@, self.max_code_width as nat),
        decreases *pe,
    {
        match pe {
            PrettyExpr::Atom(s) => PrettyExpr::Atom(s.clone()),
            PrettyExpr::Stat(s) => PrettyExpr::Stat(s),
            PrettyExpr::Inline(xs) => {
                let w = PrettyExpr::<T>::width_of_list(xs);
                if w <= self.max_code_width {
                    proof {
                        assert(width_of(pe@) <= self.max_code_width as nat);
                    }
                    pe.duplicate()
                } else {
                    let ghost vs = exprs_view(xs@);
                    let mut out: Vec<PrettyExpr<T>> = Vec::new();
                    let mut i: usize = 0;
                    proof {
                        assert(prep_seq(vs.take(0), self.max_code_width as nat)
                            =~= Seq::<ExprView<T>>::empty());
                        assert(exprs_view(out@) =~= Seq::<ExprView<T>>::empty());
                        assert(decreases_to!(*pe => *xs));
                    }
                    while i < xs.len()
                        invariant
                            decreases_to!(*pe => *xs),
                            i <= xs@.len(),
                            vs == exprs_view(xs@),
                            vs.len() == xs@.len(),
                            width_of(ExprView::Inline(vs)) <= usize::MAX
                                || self.max_code_width < usize::MAX,
                            exprs_view(out@) == prep_seq(
                                vs.take(i as int),
                                self.max_code_width as nat,
                            ),
                            out@.len() == i,
                        decreases xs@.len() - i,
                    {
                        proof {
                            lemma_child_width_le(vs, i as int);
                            lemma_prep_seq_take(vs, self.max_code_width as nat, i as int);
                            assert(decreases_to!(*xs => xs@));
                            assert(decreases_to!(xs@ => xs@[i as int]));
                            assert(decreases_to!(*pe => xs@[i as int]));
                        }
                        let y = self.prepare_ref(&xs[i]);
                        let ghost yv = y@;
                        let ghost out0 = out@;
                        out.push(y);
                        proof {
                            assert(exprs_view(out@) =~= exprs_view(out0).push(yv));
                        }
                        i = i + 1;
                    }
                    proof {
                        assert(vs.take(xs@.len() as int) =~= vs);
                    }
                    PrettyExpr::Expand(out)
                }
            },
            PrettyExpr::Expand(_) => pe.duplicate(),
            PrettyExpr::Style(t, x) => PrettyExpr::Style(*t, Box::new(self.prepare_ref(x))),
            PrettyExpr::Quote(x) => PrettyExpr::Quote(Box::new(self.prepare_ref(x))),
        }
    }
}

/// A string of `n` space characters.
fn make_spaces(n: usize) -> (s: String)
    ensures
        s@ == spaces(n as nat),
{
    let mut s = String::new();
    let mut i: usize = 0;
    while i < n
        invariant
            i <= n,
            s@ == spaces(i as nat),
        decreases n - i,
    {
        let ghost s0 = s@;
        s.append(" ");
        proof {
            reveal_strlit(" ");
            assert(" "@ =~= seq![' ']);
            assert(s0 + seq![' '] =~= s0.push(' '));
        }
        i = i + 1;
    }
    s
}

/// The abstract sink the layout engine writes into. A sink receives literal
/// text, style changes, a save/restore style stack, and line breaks; the
/// ghost command stream `sink_cmds` records every instruction received, and
/// `style_depth` tracks the style stack. `wf` is the sink's own
/// well-formedness, threaded through every operation.
pub trait Formatter<S> {
    type Error;

    /// The sink's internal consistency.
    spec fn wf(&self) -> bool;

    /// Whether this kind of sink always accepts what is written; writes into
    /// such a sink are owed success.
    spec fn infallible() -> bool;

    /// Every instruction this sink has received, in order.
    spec fn sink_cmds(&self) -> Seq<SinkCmd<S>>;

    /// The current depth of the style stack.
    spec fn style_depth(&self) -> nat;

    /// Appends literal text at the current position.
    fn write(&mut self, x: &str) -> (r: Result<(), Self::Error>)
        requires
            old(self).wf(),
        ensures
            final(self).wf(),
            final(self).style_depth() == old(self).style_depth(),
            r is Ok ==> final(self).sink_cmds() == old(self).sink_cmds().push(
                SinkCmd::Text(x@),
            ),
            r is Err ==> final(self).sink_cmds() == old(self).sink_cmds(),
            Self::infallible() ==> r is Ok,
    ;

    /// Replaces the active style.
    fn set_style(&mut self, style: &S)
        requires
            old(self).wf(),
        ensures
            final(self).wf(),
            final(self).style_depth() == old(self).style_depth(),
            final(self).sink_cmds() == old(self).sink_cmds().push(SinkCmd::SetStyle(*style)),
    ;

    /// Pushes the active style onto the style stack.
    fn save_style(&mut self)
        requires
            old(self).wf(),
        ensures
            final(self).wf(),
            final(self).style_depth() == old(self).style_depth() + 1,
            final(self).sink_cmds() == old(self).sink_cmds().push(SinkCmd::SaveStyle),
    ;

    /// Pops the style stack and makes the popped style active again. Save and
    /// restore are strictly paired: a restore needs a preceding save.
    fn restore_style(&mut self)
        requires
            old(self).wf(),
            old(self).style_depth() > 0,
        ensures
            final(self).wf(),
            final(self).style_depth() == old(self).style_depth() - 1,
            final(self).sink_cmds() == old(self).sink_cmds().push(SinkCmd::RestoreStyle),
    ;

    /// Starts a new output line; a positional sink may reposition a virtual
    /// cursor instead of emitting a newline character.
    fn write_newline(&mut self) -> (r: Result<(), Self::Error>)
        requires
            old(self).wf(),
        ensures
            final(self).wf(),
            final(self).style_depth() == old(self).style_depth(),
            r is Ok ==> final(self).sink_cmds() == old(self).sink_cmds().push(SinkCmd::Newline),
            r is Err ==> final(self).sink_cmds() == old(self).sink_cmds(),
            Self::infallible() ==> r is Ok,
    ;

    /// A line break followed by `level` spaces of indentation.
    fn write_indent(&mut self, level: usize) -> (r: Result<(), Self::Error>)
        requires
            old(self).wf(),
        ensures
            final(self).wf(),
            final(self).style_depth() == old(self).style_depth(),
            r is Ok ==> final(self).sink_cmds() == old(self).sink_cmds() + seq![
                SinkCmd::<S>::Newline,
                SinkCmd::<S>::Text(spaces(level as nat)),
            ],
            r is Err ==> received_prefix(
                old(self).sink_cmds(),
                final(self).sink_cmds(),
                seq![SinkCmd::<S>::Newline, SinkCmd::<S>::Text(spaces(level as nat))],
            ),
            Self::infallible() ==> r is Ok,
    {
        let ghost c0 = self.sink_cmds();
        let ghost intended = seq![
            SinkCmd::<S>::Newline,
            SinkCmd::<S>::Text(spaces(level as nat)),
        ];
        let r = self.write_newline();
        if r.is_err() {
            proof {
                lemma_received_none(c0, intended);
            }
            return r;
        }
        let s = make_spaces(level);
        let r2 = self.write(s.as_str());
        proof {
            if r2 is Ok {
                assert(c0.push(SinkCmd::Newline).push(SinkCmd::Text(spaces(level as nat))) =~= c0
                    + intended);
            } else {
                lemma_received_none(c0, intended);
                assert(c0.push(SinkCmd::<S>::Newline) =~= c0 + seq![SinkCmd::<S>::Newline]);
                lemma_prefix_concat(c0, seq![SinkCmd::<S>::Newline]);
                assert(c0 + seq![SinkCmd::<S>::Newline] =~= (c0 + intended).subrange(
                    0,
                    c0.len() as int + 1,
                ));
            }
        }
        r2
    }
}

impl PrettyFormatter {
    /// Emits a prepared tree into a sink: leaf text verbatim, inline lists on
    /// one line, exploded lists with a line break and indentation before each
    /// child after the first, and style wrappers as strictly paired
    /// save/set/restore instructions around their content.
    pub fn write<T, F: Formatter<T>>(&self, pe: &PrettyExpr<T>, indent_level: usize, f: &mut F)
        -> (r: Result<(), F::Error>)
        requires
            old(f).wf(),
        ensures
            final(f).wf(),
            r is Ok ==> final(f).sink_cmds() == old(f).sink_cmds() + emit(
                pe@,
                indent_level as nat,
                self.default_indent as nat,
            ),
            r is Ok ==> final(f).style_depth() == old(f).style_depth(),
            r is Err ==> received_prefix(
                old(f).sink_cmds(),
                final(f).sink_cmds(),
                emit(pe@, indent_level as nat, self.default_indent as nat),
            ),
            F::infallible() ==> r is Ok,
        decreases *pe,
    {
        let ghost c0 = f.sink_cmds();
        let ghost di = self.default_indent as nat;
        match pe {
            PrettyExpr::Atom(s) => {
                let r = f.write(s.as_str());
                proof {
                    if r is Ok {
                        assert(c0.push(SinkCmd::<T>::Text(s@)) =~= c0 + emit(pe@, indent_level as nat, di));
                    } else {
                        lemma_received_none(c0, emit(pe@, indent_level as nat, di));
                    }
                }
                r
            },
            PrettyExpr::Stat(s) => {
                let r = f.write(s);
                proof {
                    if r is Ok {
                        assert(c0.push(SinkCmd::<T>::Text(s@)) =~= c0 + emit(pe@, indent_level as nat, di));
                    } else {
                        lemma_received_none(c0, emit(pe@, indent_level as nat, di));
                    }
                }
                r
            },
            PrettyExpr::Inline(xs) => {
                proof {
                    assert(decreases_to!(*pe => *xs));
                    assert(decreases_to!(*xs => xs@));
                }
                self.write_inline(xs, f)
            },
            PrettyExpr::Expand(xs) => {
                proof {
                    assert(decreases_to!(*pe => *xs));
                    assert(decreases_to!(*xs => xs@));
                }
                self.write_expanded(xs, indent_level, f)
            },
            PrettyExpr::Style(st, x) => {
                f.save_style();
                f.set_style(st);
                let r = self.write(x, indent_level, f);
                match r {
                    Ok(_) => {
                        f.restore_style();
                        proof {
                            assert(c0.push(SinkCmd::SaveStyle).push(SinkCmd::SetStyle(*st)) + emit(
                                x@,
                                indent_level as nat,
                                di,
                            ) + seq![SinkCmd::<T>::RestoreStyle] =~= c0 + emit(
                                pe@,
                                indent_level as nat,
                                di,
                            ));
                            assert(f.sink_cmds() =~= c0.push(SinkCmd::SaveStyle).push(
                                SinkCmd::SetStyle(*st),
                            ) + emit(x@, indent_level as nat, di) + seq![
                                SinkCmd::<T>::RestoreStyle,
                            ]);
                        }
                        Ok(())
                    },
                    Err(e) => {
                        proof {
                            let done = seq![SinkCmd::<T>::SaveStyle, SinkCmd::SetStyle(*st)];
                            let rest = emit(x@, indent_level as nat, di);
                            let e_all = emit(pe@, indent_level as nat, di);
                            assert(c0.push(SinkCmd::SaveStyle).push(SinkCmd::SetStyle(*st)) =~= c0
                                + done);
                            assert(done + rest =~= (done + rest + seq![
                                SinkCmd::<T>::RestoreStyle,
                            ]).subrange(0, (done + rest).len() as int));
                            assert(done + rest + seq![SinkCmd::<T>::RestoreStyle] =~= e_all);
                            lemma_received_chain(c0, c0 + done, f.sink_cmds(), done, rest, e_all);
                        }
                        Err(e)
                    },
                }
            },
            PrettyExpr::Quote(x) => {
                let ghost e_all = emit(pe@, indent_level as nat, di);
                let ghost lp = seq![SinkCmd::<T>::Text(seq!['('])];
                let ghost rp = seq![SinkCmd::<T>::Text(seq![')'])];
                proof {
                    reveal_strlit("(");
                    reveal_strlit(")");
                    assert("("@ =~= seq!['(']);
                    assert(")"@ =~= seq![')']);
                }
                let r0 = f.write("(");
                if r0.is_err() {
                    proof {
                        lemma_received_none(c0, e_all);
                    }
                    return r0;
                }
                let r1 = self.write(x, indent_level, f);
                match r1 {
                    Ok(_) => {
                        let ghost c1 = f.sink_cmds();
                        let r2 = f.write(")");
                        proof {
                            if r2 is Ok {
                                assert(c1.push(SinkCmd::<T>::Text(")"@)) =~= c0 + e_all);
                            } else {
                                let done = lp + emit(x@, indent_level as nat, di);
                                assert(c1 =~= c0 + done);
                                lemma_received_none(c1, rp);
                                assert(done + rp =~= e_all);
                                lemma_received_chain(c0, c1, f.sink_cmds(), done, rp, e_all);
                            }
                        }
                        r2
                    },
                    Err(e) => {
                        proof {
                            let rest = emit(x@, indent_level as nat, di);
                            assert(c0.push(SinkCmd::<T>::Text("("@)) =~= c0 + lp);
                            assert(lp + rest =~= (lp + rest + rp).subrange(
                                0,
                                (lp + rest).len() as int,
                            ));
                            assert(lp + rest + rp =~= e_all);
                            lemma_received_chain(c0, c0 + lp, f.sink_cmds(), lp, rest, e_all);
                        }
                        Err(e)
                    },
                }
            },
        }
    }

    /// Emits a list on a single line: an opening parenthesis, the children
    /// separated by single spaces, a closing parenthesis.
    fn write_inline<T, F: Formatter<T>>(&self, xs: &Vec<PrettyExpr<T>>, f: &mut F) -> (r: Result<
        (),
        F::Error,
    >)
        requires
            old(f).wf(),
        ensures
            final(f).wf(),
            r is Ok ==> final(f).sink_cmds() == old(f).sink_cmds() + emit(
                ExprView::Inline(exprs_view(xs@)),
                0,
                self.default_indent as nat,
            ),
            r is Ok ==> final(f).style_depth() == old(f).style_depth(),
            r is Err ==> received_prefix(
                old(f).sink_cmds(),
                final(f).sink_cmds(),
                emit(ExprView::Inline(exprs_view(xs@)), 0, self.default_indent as nat),
            ),
            F::infallible() ==> r is Ok,
        decreases xs@,
    {
        let ghost c0 = f.sink_cmds();
        let ghost d0 = f.style_depth();
        let ghost di = self.default_indent as nat;
        let ghost vs = exprs_view(xs@);
        proof {
            reveal_strlit("(");
            reveal_strlit(")");
            reveal_strlit(" ");
            assert("("@ =~= seq!['(']);
            assert(")"@ =~= seq![')']);
            assert(" "@ =~= seq![' ']);
        }
        let ghost e_all = emit(ExprView::Inline(vs), 0, di);
        let ghost lp = seq![SinkCmd::<T>::Text(seq!['('])];
        let ghost rp = seq![SinkCmd::<T>::Text(seq![')'])];
        let r0 = f.write("(");
        if r0.is_err() {
            proof {
                lemma_received_none(c0, e_all);
            }
            return r0;
        }
        if xs.len() == 0 {
            let r1 = f.write(")");
            proof {
                if r1 is Ok {
                    assert(c0.push(SinkCmd::<T>::Text("("@)).push(SinkCmd::<T>::Text(")"@)) =~= c0
                        + emit(ExprView::Inline(vs), 0, di));
                } else {
                    assert(c0.push(SinkCmd::<T>::Text("("@)) =~= c0 + lp);
                    lemma_received_none(c0 + lp, rp);
                    assert(lp + rp =~= e_all);
                    assert(lp + Seq::<SinkCmd<T>>::empty() =~= lp);
                    assert(lp.is_prefix_of(e_all)) by {
                        assert(lp =~= e_all.subrange(0, lp.len() as int));
                    }
                    lemma_received_chain(
                        c0,
                        c0 + lp,
                        f.sink_cmds(),
                        lp,
                        Seq::<SinkCmd<T>>::empty(),
                        e_all,
                    );
                }
            }
            return r1;
        }
        proof {
            assert(decreases_to!(xs@ => xs@[0]));
        }
        let ghost tail_full = emit_inline_tail(vs.drop_first(), di);
        proof {
            assert(e_all =~= lp + emit(vs[0], 0, di) + tail_full + rp);
        }
        let r1 = self.write(&xs[0], 0, f);
        if r1.is_err() {
            proof {
                let rest0 = emit(vs[0], 0, di);
                assert(c0.push(SinkCmd::<T>::Text("("@)) =~= c0 + lp);
                assert((lp + rest0).is_prefix_of(e_all)) by {
                    assert(lp + rest0 + (tail_full + rp) =~= e_all);
                    lemma_prefix_concat(lp + rest0, tail_full + rp);
                }
                lemma_received_chain(c0, c0 + lp, f.sink_cmds(), lp, rest0, e_all);
            }
            return r1;
        }
        let ghost rest = vs.drop_first();
        let mut i: usize = 1;
        proof {
            assert(rest.take(0) =~= Seq::<ExprView<T>>::empty());
            assert(f.sink_cmds() =~= c0 + seq![SinkCmd::<T>::Text(seq!['('])] + emit(vs[0], 0, di)
                + emit_inline_tail(rest.take(0), di));
        }
        while i < xs.len()
            invariant
                1 <= i <= xs@.len(),
                vs == exprs_view(xs@),
                vs.len() == xs@.len(),
                rest == vs.drop_first(),
                di == self.default_indent as nat,
                c0 == old(f).sink_cmds(),
                f.wf(),
                f.style_depth() == d0,
                f.sink_cmds() == c0 + seq![SinkCmd::<T>::Text(seq!['('])] + emit(vs[0], 0, di)
                    + emit_inline_tail(rest.take(i - 1), di),
            decreases xs@.len() - i,
        {
            proof {
                reveal_strlit(" ");
                assert(" "@ =~= seq![' ']);
            }
            let ghost e_all = emit(ExprView::Inline(vs), 0, di);
            let ghost lp = seq![SinkCmd::<T>::Text(seq!['('])];
            let ghost rp = seq![SinkCmd::<T>::Text(seq![')'])];
            let ghost head = lp + emit(vs[0], 0, di);
            let ghost ca = f.sink_cmds();
            let ra = f.write(" ");
            if ra.is_err() {
                proof {
                    let done = head + emit_inline_tail(rest.take(i - 1), di);
                    assert(ca =~= c0 + done);
                    lemma_received_none(ca, Seq::<SinkCmd<T>>::empty());
                    assert(done + Seq::<SinkCmd<T>>::empty() =~= done);
                    lemma_inline_tail_take_prefix(rest, di, i - 1);
                    lemma_prefix_concat_mono(
                        head,
                        emit_inline_tail(rest.take(i - 1), di),
                        emit_inline_tail(rest, di),
                    );
                    assert((head + emit_inline_tail(rest, di)).is_prefix_of(e_all)) by {
                        assert(head + emit_inline_tail(rest, di) + rp =~= e_all);
                        lemma_prefix_concat(head + emit_inline_tail(rest, di), rp);
                    }
                    lemma_prefix_trans(done, head + emit_inline_tail(rest, di), e_all);
                    lemma_received_chain(
                        c0,
                        ca,
                        f.sink_cmds(),
                        done,
                        Seq::<SinkCmd<T>>::empty(),
                        e_all,
                    );
                }
                return ra;
            }
            proof {
                assert(decreases_to!(xs@ => xs@[i as int]));
            }
            let ghost cb = f.sink_cmds();
            let rb = self.write(&xs[i], 0, f);
            if rb.is_err() {
                proof {
                    let done = head + emit_inline_tail(rest.take(i - 1), di) + seq![
                        SinkCmd::<T>::Text(seq![' ']),
                    ];
                    let restc = emit(vs[i as int], 0, di);
                    assert(cb =~= c0 + done);
                    lemma_emit_inline_tail_take(rest, di, i - 1);
                    assert(rest[i - 1] == vs[i as int]);
                    assert(done + restc =~= head + emit_inline_tail(rest.take(i as int), di));
                    lemma_inline_tail_take_prefix(rest, di, i as int);
                    lemma_prefix_concat_mono(
                        head,
                        emit_inline_tail(rest.take(i as int), di),
                        emit_inline_tail(rest, di),
                    );
                    assert((head + emit_inline_tail(rest, di)).is_prefix_of(e_all)) by {
                        assert(head + emit_inline_tail(rest, di) + rp =~= e_all);
                        lemma_prefix_concat(head + emit_inline_tail(rest, di), rp);
                    }
                    lemma_prefix_trans(
                        head + emit_inline_tail(rest.take(i as int), di),
                        head + emit_inline_tail(rest, di),
                        e_all,
                    );
                    lemma_received_chain(c0, cb, f.sink_cmds(), done, restc, e_all);
                }
                return rb;
            }
            proof {
                lemma_emit_inline_tail_take(rest, di, i - 1);
                assert(rest[i - 1] == vs[i as int]);
                assert(f.sink_cmds() =~= c0 + seq![SinkCmd::<T>::Text(seq!['('])] + emit(
                    vs[0],
                    0,
                    di,
                ) + emit_inline_tail(rest.take(i as int), di));
            }
            i = i + 1;
        }
        let ghost cz = f.sink_cmds();
        let rz = f.write(")");
        proof {
            if rz is Ok {
                assert(rest.take(xs@.len() - 1) =~= rest);
                assert(cz.push(SinkCmd::<T>::Text(")"@)) =~= c0 + emit(
                    ExprView::Inline(vs),
                    0,
                    di,
                ));
            } else {
                let done = lp + emit(vs[0], 0, di) + emit_inline_tail(rest, di);
                assert(rest.take(xs@.len() - 1) =~= rest);
                assert(cz =~= c0 + done);
                lemma_received_none(cz, rp);
                assert(done + rp =~= e_all);
                lemma_received_chain(c0, cz, f.sink_cmds(), done, rp, e_all);
            }
        }
        rz
    }

    /// Emits a list across lines: the first child on the opening line, every
    /// later child preceded by a line break and indentation, at a level that
    /// grows by the configured step after an atomic head and by one column
    /// after a compound head.
    fn write_expanded<T, F: Formatter<T>>(
        &self,
        xs: &Vec<PrettyExpr<T>>,
        indent_level: usize,
        f: &mut F,
    ) -> (r: Result<(), F::Error>)
        requires
            old(f).wf(),
        ensures
            final(f).wf(),
            r is Ok ==> final(f).sink_cmds() == old(f).sink_cmds() + emit(
                ExprView::Expand(exprs_view(xs@)),
                indent_level as nat,
                self.default_indent as nat,
            ),
            r is Ok ==> final(f).style_depth() == old(f).style_depth(),
            r is Err ==> received_prefix(
                old(f).sink_cmds(),
                final(f).sink_cmds(),
                emit(
                    ExprView::Expand(exprs_view(xs@)),
                    indent_level as nat,
                    self.default_indent as nat,
                ),
            ),
            F::infallible() ==> r is Ok,
        decreases xs@,
    {
        let ghost c0 = f.sink_cmds();
        let ghost d0 = f.style_depth();
        let ghost di = self.default_indent as nat;
        let ghost vs = exprs_view(xs@);
        proof {
            reveal_strlit("(");
            reveal_strlit(")");
            assert("("@ =~= seq!['(']);
            assert(")"@ =~= seq![')']);
        }
        let ghost e_all = emit(ExprView::Expand(vs), indent_level as nat, di);
        let ghost lp = seq![SinkCmd::<T>::Text(seq!['('])];
        let ghost rp = seq![SinkCmd::<T>::Text(seq![')'])];
        let r0 = f.write("(");
        if r0.is_err() {
            proof {
                lemma_received_none(c0, e_all);
            }
            return r0;
        }
        if xs.len() == 0 {
            let r1 = f.write(")");
            proof {
                if r1 is Ok {
                    assert(c0.push(SinkCmd::<T>::Text("("@)).push(SinkCmd::<T>::Text(")"@)) =~= c0
                        + emit(ExprView::Expand(vs), indent_level as nat, di));
                } else {
                    assert(c0.push(SinkCmd::<T>::Text("("@)) =~= c0 + lp);
                    lemma_received_none(c0 + lp, rp);
                    assert(lp + Seq::<SinkCmd<T>>::empty() =~= lp);
                    assert(lp.is_prefix_of(e_all)) by {
                        assert(lp =~= e_all.subrange(0, lp.len() as int));
                    }
                    lemma_received_chain(
                        c0,
                        c0 + lp,
                        f.sink_cmds(),
                        lp,
                        Seq::<SinkCmd<T>>::empty(),
                        e_all,
                    );
                }
            }
            return r1;
        }
        if xs.len() == 1 {
            proof {
                assert(decreases_to!(xs@ => xs@[0]));
                assert(e_all =~= lp + emit(vs[0], indent_level as nat, di) + rp);
            }
            let r1 = self.write(&xs[0], indent_level, f);
            if r1.is_err() {
                proof {
                    let restc = emit(vs[0], indent_level as nat, di);
                    assert(c0.push(SinkCmd::<T>::Text("("@)) =~= c0 + lp);
                    assert((lp + restc).is_prefix_of(e_all)) by {
                        assert(lp + restc + rp =~= e_all);
                        lemma_prefix_concat(lp + restc, rp);
                    }
                    lemma_received_chain(c0, c0 + lp, f.sink_cmds(), lp, restc, e_all);
                }
                return r1;
            }
            let ghost c1 = f.sink_cmds();
            let r2 = f.write(")");
            proof {
                if r2 is Ok {
                    assert(c1.push(SinkCmd::<T>::Text(")"@)) =~= c0 + emit(
                        ExprView::Expand(vs),
                        indent_level as nat,
                        di,
                    ));
                } else {
                    let done = lp + emit(vs[0], indent_level as nat, di);
                    assert(c1 =~= c0 + done);
                    lemma_received_none(c1, rp);
                    assert(done + rp =~= e_all);
                    lemma_received_chain(c0, c1, f.sink_cmds(), done, rp, e_all);
                }
            }
            return r2;
        }
        let head_atomic = xs[0].is_atom();
        let inner = if head_atomic {
            sat_add(indent_level, self.default_indent)
        } else {
            sat_add(indent_level, 1)
        };
        proof {
            assert(inner as nat == expand_indent(vs, indent_level as nat, di));
        }
        proof {
            assert(decreases_to!(xs@ => xs@[0]));
        }
        proof {
            assert(e_all =~= lp + emit(vs[0], inner as nat, di) + emit_expanded_tail(
                vs.drop_first(),
                inner as nat,
                di,
            ) + rp);
        }
        let r1 = self.write(&xs[0], inner, f);
        if r1.is_err() {
            proof {
                let restc = emit(vs[0], inner as nat, di);
                assert(c0.push(SinkCmd::<T>::Text("("@)) =~= c0 + lp);
                assert((lp + restc).is_prefix_of(e_all)) by {
                    assert(lp + restc + (emit_expanded_tail(vs.drop_first(), inner as nat, di)
                        + rp) =~= e_all);
                    lemma_prefix_concat(
                        lp + restc,
                        emit_expanded_tail(vs.drop_first(), inner as nat, di) + rp,
                    );
                }
                lemma_received_chain(c0, c0 + lp, f.sink_cmds(), lp, restc, e_all);
            }
            return r1;
        }
        let ghost rest = vs.drop_first();
        let mut i: usize = 1;
        proof {
            assert(rest.take(0) =~= Seq::<ExprView<T>>::empty());
            assert(f.sink_cmds() =~= c0 + seq![SinkCmd::<T>::Text(seq!['('])] + emit(
                vs[0],
                inner as nat,
                di,
            ) + emit_expanded_tail(rest.take(0), inner as nat, di));
        }
        while i < xs.len()
            invariant
                1 <= i <= xs@.len(),
                vs == exprs_view(xs@),
                vs.len() == xs@.len(),
                rest == vs.drop_first(),
                di == self.default_indent as nat,
                inner as nat == expand_indent(vs, indent_level as nat, di),
                c0 == old(f).sink_cmds(),
                f.wf(),
                f.style_depth() == d0,
                f.sink_cmds() == c0 + seq![SinkCmd::<T>::Text(seq!['('])] + emit(
                    vs[0],
                    inner as nat,
                    di,
                ) + emit_expanded_tail(rest.take(i - 1), inner as nat, di),
            decreases xs@.len() - i,
        {
            let ghost e_all = emit(ExprView::Expand(vs), indent_level as nat, di);
            let ghost lp = seq![SinkCmd::<T>::Text(seq!['('])];
            let ghost rp = seq![SinkCmd::<T>::Text(seq![')'])];
            let ghost head = lp + emit(vs[0], inner as nat, di);
            let ghost brk = seq![SinkCmd::<T>::Newline, SinkCmd::<T>::Text(spaces(inner as nat))];
            let ghost ca = f.sink_cmds();
            proof {
                assert(e_all =~= head + emit_expanded_tail(rest, inner as nat, di) + rp);
            }
            let ra = f.write_indent(inner);
            if ra.is_err() {
                proof {
                    let done = head + emit_expanded_tail(rest.take(i - 1), inner as nat, di);
                    assert(ca =~= c0 + done);
                    lemma_emit_expanded_tail_take(rest, inner as nat, di, i - 1);
                    assert(rest[i - 1] == vs[i as int]);
                    assert((done + brk) + emit(vs[i as int], inner as nat, di) =~= head
                        + emit_expanded_tail(rest.take(i as int), inner as nat, di));
                    lemma_prefix_concat(done + brk, emit(vs[i as int], inner as nat, di));
                    lemma_expanded_tail_take_prefix(rest, inner as nat, di, i as int);
                    lemma_prefix_concat_mono(
                        head,
                        emit_expanded_tail(rest.take(i as int), inner as nat, di),
                        emit_expanded_tail(rest, inner as nat, di),
                    );
                    assert((head + emit_expanded_tail(rest, inner as nat, di)).is_prefix_of(
                        e_all,
                    )) by {
                        lemma_prefix_concat(head + emit_expanded_tail(rest, inner as nat, di), rp);
                    }
                    lemma_prefix_trans(
                        done + brk,
                        head + emit_expanded_tail(rest.take(i as int), inner as nat, di),
                        head + emit_expanded_tail(rest, inner as nat, di),
                    );
                    lemma_prefix_trans(
                        done + brk,
                        head + emit_expanded_tail(rest, inner as nat, di),
                        e_all,
                    );
                    lemma_received_chain(c0, ca, f.sink_cmds(), done, brk, e_all);
                }
                return ra;
            }
            proof {
                assert(decreases_to!(xs@ => xs@[i as int]));
            }
            let ghost cb = f.sink_cmds();
            let rb = self.write(&xs[i], inner, f);
            if rb.is_err() {
                proof {
                    let done = head + emit_expanded_tail(rest.take(i - 1), inner as nat, di)
                        + brk;
                    let restc = emit(vs[i as int], inner as nat, di);
                    assert(cb =~= c0 + done);
                    lemma_emit_expanded_tail_take(rest, inner as nat, di, i - 1);
                    assert(rest[i - 1] == vs[i as int]);
                    assert(done + restc =~= head + emit_expanded_tail(
                        rest.take(i as int),
                        inner as nat,
                        di,
                    ));
                    lemma_expanded_tail_take_prefix(rest, inner as nat, di, i as int);
                    lemma_prefix_concat_mono(
                        head,
                        emit_expanded_tail(rest.take(i as int), inner as nat, di),
                        emit_expanded_tail(rest, inner as nat, di),
                    );
                    assert((head + emit_expanded_tail(rest, inner as nat, di)).is_prefix_of(
                        e_all,
                    )) by {
                        lemma_prefix_concat(head + emit_expanded_tail(rest, inner as nat, di), rp);
                    }
                    lemma_prefix_trans(
                        head + emit_expanded_tail(rest.take(i as int), inner as nat, di),
                        head + emit_expanded_tail(rest, inner as nat, di),
                        e_all,
                    );
                    lemma_received_chain(c0, cb, f.sink_cmds(), done, restc, e_all);
                }
                return rb;
            }
            proof {
                lemma_emit_expanded_tail_take(rest, inner as nat, di, i - 1);
                assert(rest[i - 1] == vs[i as int]);
                assert(f.sink_cmds() =~= c0 + seq![SinkCmd::<T>::Text(seq!['('])] + emit(
                    vs[0],
                    inner as nat,
                    di,
                ) + emit_expanded_tail(rest.take(i as int), inner as nat, di));
            }
            i = i + 1;
        }
        let ghost cz = f.sink_cmds();
        let rz = f.write(")");
        proof {
            if rz is Ok {
                assert(rest.take(xs@.len() - 1) =~= rest);
                assert(cz.push(SinkCmd::<T>::Text(")"@)) =~= c0 + emit(
                    ExprView::Expand(vs),
                    indent_level as nat,
                    di,
                ));
            } else {
                let done = lp + emit(vs[0], inner as nat, di) + emit_expanded_tail(
                    rest,
                    inner as nat,
                    di,
                );
                assert(rest.take(xs@.len() - 1) =~= rest);
                assert(cz =~= c0 + done);
                lemma_received_none(cz, rp);
                assert(done + rp =~= e_all);
                lemma_received_chain(c0, cz, f.sink_cmds(), done, rp, e_all);
            }
        }
        rz
    }

    /// Prepares a tree for the configured width and pairs it with this
    /// configuration, ready to be written into a sink.
    pub fn pretty<T: Copy>(&self, pe: PrettyExpr<T>) -> (r: Pretty<T>)
        requires
            width_of(pe@) <= usize::MAX || self.max_code_width < usize::MAX,
        ensures
            r.pe@ == prep(pe@, self.max_code_width as nat),
            r.pf == *self,
    {
        Pretty { pf: *self, pe: self.prepare(pe) }
    }
}

/// A prepared tree together with the configuration that prepared it.
pub struct Pretty<T> {
    pub pf: PrettyFormatter,
    pub pe: PrettyExpr<T>,
}

impl<T: Copy> Pretty<T> {
    /// Emits the prepared tree into the given sink.
    pub fn write<F: Formatter<T>>(&self, f: &mut F) -> (r: Result<(), F::Error>)
        requires
            old(f).wf(),
        ensures
            final(f).wf(),
            r is Ok ==> final(f).sink_cmds() == old(f).sink_cmds() + emit(
                self.pe@,
                0,
                self.pf.default_indent as nat,
            ),
            r is Ok ==> final(f).style_depth() == old(f).style_depth(),
            r is Err ==> received_prefix(
                old(f).sink_cmds(),
                final(f).sink_cmds(),
                emit(self.pe@, 0, self.pf.default_indent as nat),
            ),
            F::infallible() ==> r is Ok,
    {
        self.pf.write(&self.pe, 0, f)
    }

    /// Wraps the node addressed by `path` in the given style tag; `None` when
    /// the path does not resolve.
    pub fn with_style(self, path: &Vec<usize>, style: T) -> (r: Option<Self>)
        ensures
            match get_at(self.pe@, path@) {
                Some(x) => (r matches Some(y) && y.pf == self.pf && Some(y.pe@) == replace_at(
                    self.pe@,
                    path@,
                    ExprView::Style(style, Box::new(x)),
                )),
                None => r is None,
            },
    {
        let Pretty { pf, pe } = self;
        match pe.with_style(path, style) {
            Some(pe) => Some(Pretty { pf, pe }),
            None => None,
        }
    }

    /// The rendered text of the prepared tree: the emitted commands with line
    /// breaks as newline characters and style instructions invisible.
    pub fn to_text(&self) -> (r: String)
        ensures
            r@ == text_of(emit(self.pe@, 0, self.pf.default_indent as nat)),
    {
        let mut df: DisplayFormatter<T> = DisplayFormatter::new();
        let r = self.write(&mut df);
        proof {
            assert(r is Ok);
        }
        df.into_text()
    }
}

/// A sink that collects plain text into a string, ignoring style
/// instructions. It renders every command stream it receives, so writing
/// into it never fails.
pub struct DisplayFormatter<S> {
    out: String,
    cmds: Ghost<Seq<SinkCmd<S>>>,
    depth: Ghost<nat>,
}

impl<S> DisplayFormatter<S> {
    /// A fresh, empty text sink.
    pub fn new() -> (r: Self)
        ensures
            r.wf(),
            r.sink_cmds() == Seq::<SinkCmd<S>>::empty(),
            r.style_depth() == 0,
            r.text_view() == Seq::<char>::empty(),
    {
        let r = DisplayFormatter { out: String::new(), cmds: Ghost(Seq::empty()), depth: Ghost(0) };
        proof {
            assert(text_of(Seq::<SinkCmd<S>>::empty()) =~= Seq::<char>::empty());
        }
        r
    }

    /// The text collected so far.
    pub closed spec fn text_view(&self) -> Seq<char> {
        self.out@
    }

    /// The collected text, consuming the sink.
    pub fn into_text(self) -> (r: String)
        ensures
            r@ == self.text_view(),
    {
        self.out
    }
}

impl<S> Formatter<S> for DisplayFormatter<S> {
    type Error = ();

    /// The collected text is exactly the text of the received commands.
    closed spec fn wf(&self) -> bool {
        self.out@ == text_of(self.cmds@)
    }

    /// Writing text into a string always succeeds.
    open spec fn infallible() -> bool {
        true
    }

    closed spec fn sink_cmds(&self) -> Seq<SinkCmd<S>> {
        self.cmds@
    }

    closed spec fn style_depth(&self) -> nat {
        self.depth@
    }

    fn write(&mut self, x: &str) -> (r: Result<(), Self::Error>) {
        proof {
            lemma_text_of_push(self.cmds@, SinkCmd::<S>::Text(x@));
        }
        self.out.append(x);
        self.cmds = Ghost(self.cmds@.push(SinkCmd::Text(x@)));
        Ok(())
    }

    fn set_style(&mut self, style: &S) {
        proof {
            lemma_text_of_push(self.cmds@, SinkCmd::SetStyle(*style));
            assert(self.out@ + Seq::<char>::empty() =~= self.out@);
        }
        self.cmds = Ghost(self.cmds@.push(SinkCmd::SetStyle(*style)));
    }

    fn save_style(&mut self) {
        proof {
            lemma_text_of_push(self.cmds@, SinkCmd::<S>::SaveStyle);
            assert(self.out@ + Seq::<char>::empty() =~= self.out@);
        }
        self.cmds = Ghost(self.cmds@.push(SinkCmd::SaveStyle));
        self.depth = Ghost(self.depth@ + 1);
    }

    fn restore_style(&mut self) {
        proof {
            lemma_text_of_push(self.cmds@, SinkCmd::<S>::RestoreStyle);
            assert(self.out@ + Seq::<char>::empty() =~= self.out@);
        }
        self.cmds = Ghost(self.cmds@.push(SinkCmd::RestoreStyle));
        self.depth = Ghost((self.depth@ - 1) as nat);
    }

    fn write_newline(&mut self) -> (r: Result<(), Self::Error>) {
        proof {
            lemma_text_of_push(self.cmds@, SinkCmd::<S>::Newline);
            reveal_strlit("\n");
            assert("\n"@ =~= seq!['\n']);
        }
        self.out.append("\n");
        self.cmds = Ghost(self.cmds@.push(SinkCmd::Newline));
        Ok(())
    }
}

} // verus!
