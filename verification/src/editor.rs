//! The edit cursor: a zipper over a program.  The focus is always a typed
//! position inside the tree; every operation consumes the old focus and
//! produces a new one, and the whole program can be rebuilt from any cursor.

use vstd::prelude::*;
use crate::syntax::{Expr, Program, ExprView, expr_view, prog_view, lemma_prog_view, duplicate_program};

verus! {

/// A zipper over a program.  `Edge` is a plain position between two program
/// fragments; `Quote` descends into a nested quote holding an inner cursor;
/// `Ident`, `StrLit` and `NumLit` are tokens under construction.
#[derive(Debug)]
pub enum Cursor {
    Edge(Program, Program),
    Quote(Program, Box<Cursor>, Program),
    Ident(Program, usize, Vec<char>, Program),
    StrLit(Program, usize, Vec<char>, Program),
    NumLit(Program, Option<i64>, Program),
}

/// The structural fingerprint of a cursor: every sequence is replaced by
/// its length, recursively through `Quote`.  Shape equality is the key used
/// to look up trace entries.
#[derive(Debug)]
pub enum CursorShape {
    Edge(usize, usize),
    Quote(usize, Box<CursorShape>, usize),
    Ident(usize, usize),
    StrLit(usize, usize),
    NumLit(usize, usize),
}

/// The editing mode, derived from the innermost non-`Quote` focus.
#[derive(Debug, Clone, Copy, PartialEq, Eq, Structural)]
pub enum Mode {
    Normal,
    Ident,
    StrLit,
    NumLit,
}

/// The mathematical model of a cursor.
#[verifier::ext_equal]
pub enum CursorView {
    Edge { head: Seq<ExprView>, tail: Seq<ExprView> },
    Quote { head: Seq<ExprView>, inner: Box<CursorView>, tail: Seq<ExprView> },
    Ident { head: Seq<ExprView>, caret: int, text: Seq<char>, tail: Seq<ExprView> },
    StrLit { head: Seq<ExprView>, caret: int, text: Seq<char>, tail: Seq<ExprView> },
    NumLit { head: Seq<ExprView>, acc: Option<int>, tail: Seq<ExprView> },
}

/// The mathematical model of a cursor shape.
#[verifier::ext_equal]
pub enum ShapeView {
    Edge { head: int, tail: int },
    Quote { head: int, inner: Box<ShapeView>, tail: int },
    Ident { head: int, tail: int },
    StrLit { head: int, tail: int },
    NumLit { head: int, tail: int },
}

/// The model of a cursor.
pub open spec fn cursor_view(c: Cursor) -> CursorView
    decreases c,
{
    match c {
        Cursor::Edge(head, tail) => CursorView::Edge { head: prog_view(head@), tail: prog_view(tail@) },
        Cursor::Quote(head, inner, tail) => CursorView::Quote {
            head: prog_view(head@),
            inner: Box::new(cursor_view(*inner)),
            tail: prog_view(tail@),
        },
        Cursor::Ident(head, caret, text, tail) => CursorView::Ident {
            head: prog_view(head@),
            caret: caret as int,
            text: text@,
            tail: prog_view(tail@),
        },
        Cursor::StrLit(head, caret, text, tail) => CursorView::StrLit {
            head: prog_view(head@),
            caret: caret as int,
            text: text@,
            tail: prog_view(tail@),
        },
        Cursor::NumLit(head, acc, tail) => CursorView::NumLit {
            head: prog_view(head@),
            acc: match acc {
                Some(n) => Some(n as int),
                None => None,
            },
            tail: prog_view(tail@),
        },
    }
}

/// The model of a cursor shape.
pub open spec fn shape_view(s: CursorShape) -> ShapeView
    decreases s,
{
    match s {
        CursorShape::Edge(h, t) => ShapeView::Edge { head: h as int, tail: t as int },
        CursorShape::Quote(h, inner, t) => ShapeView::Quote {
            head: h as int,
            inner: Box::new(shape_view(*inner)),
            tail: t as int,
        },
        CursorShape::Ident(h, t) => ShapeView::Ident { head: h as int, tail: t as int },
        CursorShape::StrLit(h, t) => ShapeView::StrLit { head: h as int, tail: t as int },
        CursorShape::NumLit(h, t) => ShapeView::NumLit { head: h as int, tail: t as int },
    }
}

/// The shape of a cursor model: contents are forgotten, lengths remain.
pub open spec fn shape_of(c: CursorView) -> ShapeView
    decreases c,
{
    match c {
        CursorView::Edge { head, tail } => ShapeView::Edge { head: head.len() as int, tail: tail.len() as int },
        CursorView::Quote { head, inner, tail } => ShapeView::Quote {
            head: head.len() as int,
            inner: Box::new(shape_of(*inner)),
            tail: tail.len() as int,
        },
        CursorView::Ident { head, tail, .. } => ShapeView::Ident { head: head.len() as int, tail: tail.len() as int },
        CursorView::StrLit { head, tail, .. } => ShapeView::StrLit { head: head.len() as int, tail: tail.len() as int },
        CursorView::NumLit { head, tail, .. } => ShapeView::NumLit { head: head.len() as int, tail: tail.len() as int },
    }
}

/// The mode of a cursor model: recurse through `Quote` to the innermost focus.
pub open spec fn mode_of(c: CursorView) -> Mode
    decreases c,
{
    match c {
        CursorView::Edge { .. } => Mode::Normal,
        CursorView::Quote { inner, .. } => mode_of(*inner),
        CursorView::Ident { .. } => Mode::Ident,
        CursorView::StrLit { .. } => Mode::StrLit,
        CursorView::NumLit { .. } => Mode::NumLit,
    }
}

/// Whether the focus, recursively through `Quote`, ends at an `Edge`,
/// so that the enclosing program can be rebuilt from it.
pub open spec fn rebuildable(c: CursorView) -> bool
    decreases c,
{
    match c {
        CursorView::Edge { .. } => true,
        CursorView::Quote { inner, .. } => rebuildable(*inner),
        _ => false,
    }
}

/// The full program a cursor stands in: the head, the focus rendered back
/// into an expression where there is one, and the tail.
pub open spec fn program_of(c: CursorView) -> Seq<ExprView>
    recommends
        rebuildable(c),
    decreases c,
{
    match c {
        CursorView::Edge { head, tail } => head + tail,
        CursorView::Quote { head, inner, tail } => head + seq![ExprView::Quote { body: program_of(*inner) }] + tail,
        _ => Seq::empty(),
    }
}

/// The innermost `Edge`-level reconstruction, without re-wrapping the
/// enclosing quotes.
pub open spec fn local_program_of(c: CursorView) -> Seq<ExprView>
    recommends
        rebuildable(c),
    decreases c,
{
    match c {
        CursorView::Edge { head, tail } => head + tail,
        CursorView::Quote { inner, .. } => local_program_of(*inner),
        _ => Seq::empty(),
    }
}

/// The head sequence at the cursor's own level.
pub open spec fn head_program_of(c: CursorView) -> Seq<ExprView> {
    match c {
        CursorView::Edge { head, .. } => head,
        CursorView::Quote { head, .. } => head,
        CursorView::Ident { head, .. } => head,
        CursorView::StrLit { head, .. } => head,
        CursorView::NumLit { head, .. } => head,
    }
}

/// The expression immediately after the focus, recursively through `Quote`.
pub open spec fn next_expr_of(c: CursorView) -> Option<ExprView>
    decreases c,
{
    match c {
        CursorView::Edge { tail, .. } => if tail.len() > 0 { Some(tail[0]) } else { None },
        CursorView::Quote { inner, .. } => next_expr_of(*inner),
        CursorView::Ident { tail, .. } => if tail.len() > 0 { Some(tail[0]) } else { None },
        CursorView::StrLit { tail, .. } => if tail.len() > 0 { Some(tail[0]) } else { None },
        CursorView::NumLit { tail, .. } => if tail.len() > 0 { Some(tail[0]) } else { None },
    }
}

/// Well-formedness: every caret indexes its buffer (`0 ..= len`),
/// recursively through `Quote`.
pub open spec fn cursor_wf(c: CursorView) -> bool
    decreases c,
{
    match c {
        CursorView::Edge { .. } => true,
        CursorView::Quote { inner, .. } => cursor_wf(*inner),
        CursorView::Ident { caret, text, .. } => 0 <= caret <= text.len(),
        CursorView::StrLit { caret, text, .. } => 0 <= caret <= text.len(),
        CursorView::NumLit { acc, .. } => acc matches Some(n) ==> i64::MIN <= n <= i64::MAX,
    }
}

impl Default for Cursor {
    /// A fresh cursor over an empty program.
    fn default() -> (r: Self)
        ensures
            cursor_view(r) == (CursorView::Edge {
                head: Seq::<ExprView>::empty(),
                tail: Seq::<ExprView>::empty(),
            }),
    {
        Cursor::empty()
    }
}

impl Cursor {
    /// A fresh cursor over an empty program.
    pub fn empty() -> (r: Self)
        ensures
            cursor_view(r) == (CursorView::Edge { head: Seq::<ExprView>::empty(), tail: Seq::<ExprView>::empty() }),
            cursor_wf(cursor_view(r)),
    {
        Cursor::Edge(Vec::new(), Vec::new())
    }

    /// A fresh, empty identifier token under construction.
    pub fn empty_ident() -> (r: Self)
        ensures
            cursor_view(r) == (CursorView::Ident {
                head: Seq::<ExprView>::empty(),
                caret: 0,
                text: Seq::<char>::empty(),
                tail: Seq::<ExprView>::empty(),
            }),
            cursor_wf(cursor_view(r)),
    {
        Cursor::Ident(Vec::new(), 0, Vec::new(), Vec::new())
    }

    /// A fresh, empty string-literal token under construction.
    pub fn empty_str_lit() -> (r: Self)
        ensures
            cursor_view(r) == (CursorView::StrLit {
                head: Seq::<ExprView>::empty(),
                caret: 0,
                text: Seq::<char>::empty(),
                tail: Seq::<ExprView>::empty(),
            }),
            cursor_wf(cursor_view(r)),
    {
        Cursor::StrLit(Vec::new(), 0, Vec::new(), Vec::new())
    }

    /// A fresh, empty numeric-literal token under construction.
    pub fn empty_num_lit() -> (r: Self)
        ensures
            cursor_view(r) == (CursorView::NumLit {
                head: Seq::<ExprView>::empty(),
                acc: None,
                tail: Seq::<ExprView>::empty(),
            }),
            cursor_wf(cursor_view(r)),
    {
        Cursor::NumLit(Vec::new(), None, Vec::new())
    }

    /// A fresh quote whose inner focus is an empty edge.
    pub fn empty_quote() -> (r: Self)
        ensures
            cursor_view(r) == (CursorView::Quote {
                head: Seq::<ExprView>::empty(),
                inner: Box::new(CursorView::Edge { head: Seq::<ExprView>::empty(), tail: Seq::<ExprView>::empty() }),
                tail: Seq::<ExprView>::empty(),
            }),
            cursor_wf(cursor_view(r)),
    {
        let inner = Cursor::Edge(Vec::new(), Vec::new());
        assert(cursor_view(inner) == (CursorView::Edge {
            head: Seq::<ExprView>::empty(),
            tail: Seq::<ExprView>::empty(),
        }));
        let r = Cursor::Quote(Vec::new(), Box::new(inner), Vec::new());
        assert(cursor_wf(cursor_view(r))) by {
            assert(cursor_view(r) matches CursorView::Quote { inner: i, .. } && cursor_wf(*i));
        }
        r
    }

    /// The cursor that seeds evaluation: the position before a whole program.
    pub fn initial(program: Program) -> (r: Self)
        ensures
            cursor_view(r) == (CursorView::Edge { head: Seq::<ExprView>::empty(), tail: prog_view(program@) }),
            cursor_wf(cursor_view(r)),
    {
        Cursor::Edge(Vec::new(), program)
    }

    /// The structural fingerprint of this cursor.
    pub fn shape(&self) -> (r: CursorShape)
        ensures
            shape_view(r) == shape_of(cursor_view(*self)),
        decreases *self,
    {
        proof {
            lemma_prog_view_len();
        }
        match self {
            Cursor::Edge(head, tail) => CursorShape::Edge(head.len(), tail.len()),
            Cursor::Quote(head, inner, tail) => CursorShape::Quote(head.len(), Box::new(inner.shape()), tail.len()),
            Cursor::Ident(head, _, _, tail) => CursorShape::Ident(head.len(), tail.len()),
            Cursor::StrLit(head, _, _, tail) => CursorShape::StrLit(head.len(), tail.len()),
            Cursor::NumLit(head, _, tail) => CursorShape::NumLit(head.len(), tail.len()),
        }
    }

    /// The editing mode of the innermost focus.
    pub fn mode(&self) -> (r: Mode)
        ensures
            r == mode_of(cursor_view(*self)),
        decreases *self,
    {
        match self {
            Cursor::Edge(_, _) => Mode::Normal,
            Cursor::Quote(_, inner, _) => inner.mode(),
            Cursor::Ident(_, _, _, _) => Mode::Ident,
            Cursor::StrLit(_, _, _, _) => Mode::StrLit,
            Cursor::NumLit(_, _, _) => Mode::NumLit,
        }
    }

    /// Rebuild the full program around this cursor.  Only a cursor whose
    /// innermost focus is an `Edge` can be rebuilt.
    pub fn program(&self) -> (r: Program)
        requires
            rebuildable(cursor_view(*self)),
        ensures
            prog_view(r@) == program_of(cursor_view(*self)),
        decreases *self,
    {
        match self {
            Cursor::Edge(head, tail) => {
                let mut r = duplicate_program(head);
                let mut t = duplicate_program(tail);
                let ghost r0: Seq<Expr> = r@;
                let ghost t0: Seq<Expr> = t@;
                r.append(&mut t);
                proof {
                    lemma_prog_view_concat(r0, t0);
                }
                assert(prog_view(r@) =~= program_of(cursor_view(*self)));
                r
            },
            Cursor::Quote(head, inner, tail) => {
                let mut r = duplicate_program(head);
                let ghost r0: Seq<Expr> = r@;
                let q = Expr::Quote(inner.program());
                r.push(q);
                let ghost r1: Seq<Expr> = r@;
                let mut t = duplicate_program(tail);
                let ghost t0: Seq<Expr> = t@;
                r.append(&mut t);
                proof {
                    lemma_prog_view_push(r0, q);
                    lemma_prog_view_concat(r1, t0);
                }
                assert(prog_view(r@) =~= program_of(cursor_view(*self)));
                r
            },
            _ => {
                proof {
                    assert(false);
                }
                Vec::new()
            },
        }
    }

    /// Rebuild only the innermost `Edge`-level program, without re-wrapping
    /// the enclosing quotes.
    pub fn local_program(&self) -> (r: Program)
        requires
            rebuildable(cursor_view(*self)),
        ensures
            prog_view(r@) == local_program_of(cursor_view(*self)),
        decreases *self,
    {
        match self {
            Cursor::Edge(head, tail) => {
                let mut r = duplicate_program(head);
                let mut t = duplicate_program(tail);
                let ghost r0: Seq<Expr> = r@;
                let ghost t0: Seq<Expr> = t@;
                r.append(&mut t);
                proof {
                    lemma_prog_view_concat(r0, t0);
                }
                assert(prog_view(r@) =~= local_program_of(cursor_view(*self)));
                r
            },
            Cursor::Quote(_, inner, _) => inner.local_program(),
            _ => {
                proof {
                    assert(false);
                }
                Vec::new()
            },
        }
    }

    /// The head sequence at this cursor's own level.
    pub fn head_program(&self) -> (r: Program)
        ensures
            prog_view(r@) == head_program_of(cursor_view(*self)),
    {
        match self {
            Cursor::Edge(head, _) => duplicate_program(head),
            Cursor::Quote(head, _, _) => duplicate_program(head),
            Cursor::Ident(head, _, _, _) => duplicate_program(head),
            Cursor::StrLit(head, _, _, _) => duplicate_program(head),
            Cursor::NumLit(head, _, _) => duplicate_program(head),
        }
    }

    /// The expression immediately after the focus, if any.
    pub fn next_expr(&self) -> (r: Option<&Expr>)
        ensures
            match r {
                Some(e) => next_expr_of(cursor_view(*self)) == Some(expr_view(*e)),
                None => next_expr_of(cursor_view(*self)) is None,
            },
        decreases *self,
    {
        proof {
            lemma_prog_view_len();
        }
        match self {
            Cursor::Edge(_, tail) => tail_first(tail),
            Cursor::Quote(_, inner, _) => inner.next_expr(),
            Cursor::Ident(_, _, _, tail) => tail_first(tail),
            Cursor::StrLit(_, _, _, tail) => tail_first(tail),
            Cursor::NumLit(_, _, tail) => tail_first(tail),
        }
    }
}

/// The first element of a program fragment, if any.
fn tail_first(tail: &Program) -> (r: Option<&Expr>)
    ensures
        match r {
            Some(e) => prog_view(tail@).len() > 0 && prog_view(tail@)[0] == expr_view(*e),
            None => prog_view(tail@).len() == 0,
        },
{
    proof {
        lemma_prog_view(tail@);
    }
    if tail.len() > 0 {
        Some(&tail[0])
    } else {
        None
    }
}

/// A program fragment's model always has the fragment's length.
pub proof fn lemma_prog_view_len()
    ensures
        forall|s: Seq<Expr>| (#[trigger] prog_view(s)).len() == s.len(),
{
    assert forall|s: Seq<Expr>| (#[trigger] prog_view(s)).len() == s.len() by {
        lemma_prog_view(s);
    }
}

/// The model of a concatenation is the concatenation of the models.
pub proof fn lemma_prog_view_concat(a: Seq<Expr>, b: Seq<Expr>)
    ensures
        prog_view(a + b) == prog_view(a) + prog_view(b),
{
    lemma_prog_view(a);
    lemma_prog_view(b);
    lemma_prog_view(a + b);
    assert(prog_view(a + b) =~= prog_view(a) + prog_view(b));
}

/// The model of a push is the model plus one element.
pub proof fn lemma_prog_view_push(a: Seq<Expr>, e: Expr)
    ensures
        prog_view(a.push(e)) == prog_view(a).push(expr_view(e)),
{
    lemma_prog_view(a);
    lemma_prog_view(a.push(e));
    assert(prog_view(a.push(e)) =~= prog_view(a).push(expr_view(e)));
}

} // verus!

verus! {

/// The model of `move_left`: on an `Edge`, transfer one expression from
/// `head` to `tail` (no-op at the boundary); through `Quote`, recurse;
/// on `Ident`/`StrLit`, step the caret back; on `NumLit`, nothing.
pub open spec fn moved_left(c: CursorView) -> CursorView
    decreases c,
{
    match c {
        CursorView::Edge { head, tail } => {
            if head.len() == 0 {
                c
            } else {
                CursorView::Edge { head: head.drop_last(), tail: seq![head.last()] + tail }
            }
        },
        CursorView::Quote { head, inner, tail } => CursorView::Quote {
            head,
            inner: Box::new(moved_left(*inner)),
            tail,
        },
        CursorView::Ident { head, caret, text, tail } => CursorView::Ident {
            head,
            caret: if caret > 0 { caret - 1 } else { caret },
            text,
            tail,
        },
        CursorView::StrLit { head, caret, text, tail } => CursorView::StrLit {
            head,
            caret: if caret > 0 { caret - 1 } else { caret },
            text,
            tail,
        },
        CursorView::NumLit { .. } => c,
    }
}

impl Cursor {
    /// Move the focus one step to the left.
    pub fn move_left(&mut self)
        ensures
            cursor_view(*final(self)) == moved_left(cursor_view(*old(self))),
            cursor_wf(cursor_view(*old(self))) ==> cursor_wf(cursor_view(*final(self))),
        decreases *old(self),
    {
        match self {
            Cursor::Edge(head, tail) => {
                let ghost h0: Seq<Expr> = head@;
                let ghost t0: Seq<Expr> = tail@;
                if let Some(e) = head.pop() {
                    tail.insert(0, e);
                    proof {
                        lemma_prog_view(h0);
                        lemma_prog_view(head@);
                        lemma_prog_view(t0);
                        lemma_prog_view(tail@);
                        assert(prog_view(head@) =~= prog_view(h0).drop_last());
                        assert(prog_view(tail@) =~= seq![prog_view(h0).last()] + prog_view(t0));
                    }
                }
            },
            Cursor::Quote(_, inner, _) => {
                inner.move_left();
            },
            Cursor::Ident(_, n, _, _) => {
                if *n > 0 {
                    *n = *n - 1;
                }
            },
            Cursor::StrLit(_, n, _, _) => {
                if *n > 0 {
                    *n = *n - 1;
                }
            },
            Cursor::NumLit(_, _, _) => {},
        }
    }
}

} // verus!

verus! {

/// The model of `move_right`: the mirror image of `move_left`.
pub open spec fn moved_right(c: CursorView) -> CursorView
    decreases c,
{
    match c {
        CursorView::Edge { head, tail } => {
            if tail.len() == 0 {
                c
            } else {
                CursorView::Edge { head: head.push(tail[0]), tail: tail.drop_first() }
            }
        },
        CursorView::Quote { head, inner, tail } => CursorView::Quote {
            head,
            inner: Box::new(moved_right(*inner)),
            tail,
        },
        CursorView::Ident { head, caret, text, tail } => CursorView::Ident {
            head,
            caret: if caret < text.len() { caret + 1 } else { caret },
            text,
            tail,
        },
        CursorView::StrLit { head, caret, text, tail } => CursorView::StrLit {
            head,
            caret: if caret < text.len() { caret + 1 } else { caret },
            text,
            tail,
        },
        CursorView::NumLit { .. } => c,
    }
}

/// The model of `move_very_left`: place the focus before everything at the
/// innermost level; on a literal focus, move the caret to the start.
pub open spec fn moved_very_left(c: CursorView) -> CursorView
    decreases c,
{
    match c {
        CursorView::Edge { head, tail } => CursorView::Edge {
            head: Seq::empty(),
            tail: head + tail,
        },
        CursorView::Quote { head, inner, tail } => CursorView::Quote {
            head,
            inner: Box::new(moved_very_left(*inner)),
            tail,
        },
        CursorView::Ident { head, caret: _, text, tail } => CursorView::Ident { head, caret: 0, text, tail },
        CursorView::StrLit { head, caret: _, text, tail } => CursorView::StrLit { head, caret: 0, text, tail },
        CursorView::NumLit { .. } => c,
    }
}

/// The model of `move_up`: when the expression just before an `Edge` focus
/// is a quote, enter it, landing at its start; recurse through `Quote`.
pub open spec fn moved_up(c: CursorView) -> CursorView
    decreases c,
{
    match c {
        CursorView::Edge { head, tail } => {
            if head.len() > 0 && (head.last() matches ExprView::Quote { body }) {
                CursorView::Quote {
                    head: head.drop_last(),
                    inner: Box::new(CursorView::Edge { head: Seq::empty(), tail: head.last()->Quote_body }),
                    tail,
                }
            } else {
                c
            }
        },
        CursorView::Quote { head, inner, tail } => CursorView::Quote {
            head,
            inner: Box::new(moved_up(*inner)),
            tail,
        },
        _ => c,
    }
}

/// The model of `move_out`: collapse the deepest `Quote` level back into a
/// quote expression pushed onto the head one level up.
pub open spec fn moved_out(c: CursorView) -> CursorView
    decreases c,
{
    match c {
        CursorView::Quote { head, inner, tail } => {
            if *inner matches CursorView::Quote { .. } {
                CursorView::Quote { head, inner: Box::new(moved_out(*inner)), tail }
            } else {
                CursorView::Edge {
                    head: head.push(ExprView::Quote { body: program_of(*inner) }),
                    tail,
                }
            }
        },
        _ => c,
    }
}

/// Whether `move_out` may be called: every focus on the quote spine must be
/// an `Edge` once the innermost quote is reached, so the collapsed quote can
/// be rebuilt into an expression.
pub open spec fn move_out_ok(c: CursorView) -> bool
    decreases c,
{
    match c {
        CursorView::Quote { inner, .. } => move_out_ok(*inner) && rebuildable(*inner),
        _ => true,
    }
}

impl Cursor {
    /// Move the focus one step to the right.
    pub fn move_right(&mut self)
        ensures
            cursor_view(*final(self)) == moved_right(cursor_view(*old(self))),
            cursor_wf(cursor_view(*old(self))) ==> cursor_wf(cursor_view(*final(self))),
        decreases *old(self),
    {
        match self {
            Cursor::Edge(head, tail) => {
                let ghost h0: Seq<Expr> = head@;
                let ghost t0: Seq<Expr> = tail@;
                if tail.len() > 0 {
                    let e = tail.remove(0);
                    head.push(e);
                    proof {
                        lemma_prog_view(h0);
                        lemma_prog_view(head@);
                        lemma_prog_view(t0);
                        lemma_prog_view(tail@);
                        assert(prog_view(head@) =~= prog_view(h0).push(prog_view(t0)[0]));
                        assert(prog_view(tail@) =~= prog_view(t0).drop_first());
                    }
                }
            },
            Cursor::Quote(_, inner, _) => {
                inner.move_right();
            },
            Cursor::Ident(_, n, s, _) => {
                if *n < s.len() {
                    *n = *n + 1;
                }
            },
            Cursor::StrLit(_, n, s, _) => {
                if *n < s.len() {
                    *n = *n + 1;
                }
            },
            Cursor::NumLit(_, _, _) => {},
        }
    }

    /// Move the focus before everything at the innermost level.
    pub fn move_very_left(&mut self)
        ensures
            cursor_view(*final(self)) == moved_very_left(cursor_view(*old(self))),
            cursor_wf(cursor_view(*old(self))) ==> cursor_wf(cursor_view(*final(self))),
        decreases *old(self),
    {
        match self {
            Cursor::Edge(head, tail) => {
                let ghost h0: Seq<Expr> = head@;
                let ghost t0: Seq<Expr> = tail@;
                head.append(tail);
                core::mem::swap(head, tail);
                proof {
                    lemma_prog_view_concat(h0, t0);
                    assert(prog_view(head@) =~= Seq::<ExprView>::empty());
                }
            },
            Cursor::Quote(_, inner, _) => {
                inner.move_very_left();
            },
            Cursor::Ident(_, n, _, _) => {
                *n = 0;
            },
            Cursor::StrLit(_, n, _, _) => {
                *n = 0;
            },
            Cursor::NumLit(_, _, _) => {},
        }
    }

    /// Enter the quote standing immediately before an `Edge` focus, landing
    /// at its start; otherwise do nothing.
    pub fn move_up(&mut self)
        ensures
            cursor_view(*final(self)) == moved_up(cursor_view(*old(self))),
            cursor_wf(cursor_view(*old(self))) ==> cursor_wf(cursor_view(*final(self))),
        decreases *old(self),
    {
        match self {
            Cursor::Quote(_, inner, _) => {
                inner.move_up();
            },
            Cursor::Edge(_, _) => {
                let mut tmp = Cursor::Edge(Vec::new(), Vec::new());
                core::mem::swap(self, &mut tmp);
                if let Cursor::Edge(mut head, tail) = tmp {
                    let ghost h0: Seq<Expr> = head@;
                    match head.pop() {
                        Some(Expr::Quote(body)) => {
                            let ghost b0: Seq<Expr> = body@;
                            proof {
                                lemma_prog_view(h0);
                                lemma_prog_view(head@);
                                lemma_prog_view(b0);
                                assert(prog_view(head@) =~= prog_view(h0).drop_last());
                            }
                            let inner_c = Cursor::Edge(Vec::new(), body);
                            proof {
                                assert(prog_view(Seq::<Expr>::empty()) == Seq::<ExprView>::empty());
                                assert(cursor_view(inner_c) == (CursorView::Edge {
                                    head: Seq::<ExprView>::empty(),
                                    tail: prog_view(b0),
                                }));
                            }
                            *self = Cursor::Quote(head, Box::new(inner_c), tail);
                            proof {
                                assert(cursor_view(*self) =~= moved_up(cursor_view(*old(self))));
                                assert(cursor_wf(cursor_view(inner_c)));
                                assert(cursor_wf(cursor_view(*self)));
                            }
                        },
                        Some(e) => {
                            head.push(e);
                            proof {
                                lemma_prog_view(h0);
                                lemma_prog_view(head@);
                                assert(prog_view(head@) =~= prog_view(h0));
                            }
                            *self = Cursor::Edge(head, tail);
                        },
                        None => {
                            *self = Cursor::Edge(head, tail);
                        },
                    }
                } else {
                    proof {
                        assert(false);
                    }
                }
            },
            _ => {},
        }
    }

    /// Collapse the deepest quote level back into a quote expression.
    pub fn move_out(&mut self)
        requires
            move_out_ok(cursor_view(*old(self))),
        ensures
            cursor_view(*final(self)) == moved_out(cursor_view(*old(self))),
            cursor_wf(cursor_view(*old(self))) ==> cursor_wf(cursor_view(*final(self))),
        decreases *old(self),
    {
        match self {
            Cursor::Quote(_, _, _) => {
                let mut tmp = Cursor::Edge(Vec::new(), Vec::new());
                core::mem::swap(self, &mut tmp);
                if let Cursor::Quote(mut head, mut inner, tail) = tmp {
                    let is_quote = match &*inner {
                        Cursor::Quote(_, _, _) => true,
                        _ => false,
                    };
                    if is_quote {
                        inner.move_out();
                        *self = Cursor::Quote(head, inner, tail);
                    } else {
                        let ghost h0: Seq<Expr> = head@;
                        let body = inner.program();
                        let q = Expr::Quote(body);
                        head.push(q);
                        proof {
                            lemma_prog_view_push(h0, q);
                        }
                        *self = Cursor::Edge(head, tail);
                    }
                } else {
                    proof {
                        assert(false);
                    }
                }
            },
            _ => {},
        }
    }
}

} // verus!

verus! {

/// The model of `escape_to_normal`: commit the token under construction as
/// a finished expression appended to `head` and fall back to an `Edge`
/// focus; an empty numeric token vanishes.
pub open spec fn escaped(c: CursorView) -> CursorView
    decreases c,
{
    match c {
        CursorView::Edge { .. } => c,
        CursorView::Quote { head, inner, tail } => CursorView::Quote {
            head,
            inner: Box::new(escaped(*inner)),
            tail,
        },
        CursorView::Ident { head, caret: _, text, tail } => CursorView::Edge {
            head: head.push(ExprView::Ident { text }),
            tail,
        },
        CursorView::StrLit { head, caret: _, text, tail } => CursorView::Edge {
            head: head.push(ExprView::StrLit { text }),
            tail,
        },
        CursorView::NumLit { head, acc, tail } => CursorView::Edge {
            head: match acc {
                Some(n) => head.push(ExprView::NumLit { n }),
                None => head,
            },
            tail,
        },
    }
}

/// The model of `insert`: splice a freshly built fragment into an `Edge`
/// focus; the fragment's variant becomes the variant of the result.
pub open spec fn inserted(c: CursorView, f: CursorView) -> CursorView
    decreases c,
{
    match c {
        CursorView::Quote { head, inner, tail } => CursorView::Quote {
            head,
            inner: Box::new(inserted(*inner, f)),
            tail,
        },
        CursorView::Edge { head, tail } => match f {
            CursorView::Edge { head: fh, tail: ft } => CursorView::Edge {
                head: head + fh,
                tail: ft + tail,
            },
            CursorView::Quote { head: fh, inner, tail: ft } => CursorView::Quote {
                head: head + fh,
                inner,
                tail: ft + tail,
            },
            CursorView::Ident { head: fh, caret, text, tail: ft } => CursorView::Ident {
                head: head + fh,
                caret,
                text,
                tail: ft + tail,
            },
            CursorView::StrLit { head: fh, caret, text, tail: ft } => CursorView::StrLit {
                head: head + fh,
                caret,
                text,
                tail: ft + tail,
            },
            CursorView::NumLit { head: fh, acc, tail: ft } => CursorView::NumLit {
                head: head + fh,
                acc,
                tail: ft + tail,
            },
        },
        _ => c,
    }
}

/// The model of `delete_before`: drop the expression just before an `Edge`
/// focus, if there is one.
pub open spec fn deleted_before(c: CursorView) -> CursorView
    decreases c,
{
    match c {
        CursorView::Edge { head, tail } => CursorView::Edge {
            head: if head.len() == 0 { head } else { head.drop_last() },
            tail,
        },
        CursorView::Quote { head, inner, tail } => CursorView::Quote {
            head,
            inner: Box::new(deleted_before(*inner)),
            tail,
        },
        _ => c,
    }
}

/// The decimal value of a digit character, if it is one.
pub open spec fn digit_of(ch: char) -> Option<int> {
    if 48 <= ch as u32 <= 57 {
        Some(ch as u32 - 48)
    } else {
        None
    }
}

/// The model of feeding one character to a numeric token: a decimal digit
/// is folded into the accumulator where the new value still fits a
/// machine integer; everything else is ignored.
pub open spec fn num_input(acc: Option<int>, ch: char) -> Option<int> {
    match digit_of(ch) {
        Some(d) => {
            let base: int = match acc {
                Some(n) => n,
                None => 0,
            };
            if i64::MIN <= 10 * base && 10 * base + d <= i64::MAX {
                Some(10 * base + d)
            } else {
                acc
            }
        },
        None => acc,
    }
}

/// The model of `input`: insert a character at the caret of a literal
/// token, or fold a digit into a numeric token.
pub open spec fn input_char(c: CursorView, ch: char) -> CursorView
    decreases c,
{
    match c {
        CursorView::Quote { head, inner, tail } => CursorView::Quote {
            head,
            inner: Box::new(input_char(*inner, ch)),
            tail,
        },
        CursorView::Ident { head, caret, text, tail } => CursorView::Ident {
            head,
            caret: caret + 1,
            text: text.insert(caret, ch),
            tail,
        },
        CursorView::StrLit { head, caret, text, tail } => CursorView::StrLit {
            head,
            caret: caret + 1,
            text: text.insert(caret, ch),
            tail,
        },
        CursorView::NumLit { head, acc, tail } => CursorView::NumLit {
            head,
            acc: num_input(acc, ch),
            tail,
        },
        CursorView::Edge { .. } => c,
    }
}

/// Append one expression to a program fragment.
fn push_expr(v: &mut Vec<Expr>, e: Expr)
    ensures
        prog_view(final(v)@) == prog_view(old(v)@).push(expr_view(e)),
{
    let ghost v0: Seq<Expr> = v@;
    let ghost e0: Expr = e;
    v.push(e);
    proof {
        lemma_prog_view_push(v0, e0);
    }
}

impl Cursor {
    /// Commit the token under construction and return to normal editing.
    pub fn escape_to_normal(&mut self)
        ensures
            cursor_view(*final(self)) == escaped(cursor_view(*old(self))),
            cursor_wf(cursor_view(*old(self))) ==> cursor_wf(cursor_view(*final(self))),
        decreases *old(self),
    {
        match self {
            Cursor::Quote(_, inner, _) => {
                inner.escape_to_normal();
            },
            Cursor::Edge(_, _) => {},
            _ => {
                let mut tmp = Cursor::Edge(Vec::new(), Vec::new());
                core::mem::swap(self, &mut tmp);
                match tmp {
                    Cursor::Ident(mut head, _, s, tail) => {
                        push_expr(&mut head, Expr::Ident(s));
                        *self = Cursor::Edge(head, tail);
                    },
                    Cursor::StrLit(mut head, _, s, tail) => {
                        push_expr(&mut head, Expr::StrLit(s));
                        *self = Cursor::Edge(head, tail);
                    },
                    Cursor::NumLit(mut head, acc, tail) => {
                        match acc {
                            Some(n) => {
                                push_expr(&mut head, Expr::NumLit(n));
                            },
                            None => {},
                        }
                        *self = Cursor::Edge(head, tail);
                    },
                    _ => {
                        proof {
                            assert(false);
                        }
                    },
                }
            },
        }
    }

    /// Splice a freshly built fragment cursor into the focus.  The focus
    /// must be in normal mode: its innermost non-`Quote` level is an `Edge`.
    pub fn insert(&mut self, subst: Cursor)
        requires
            mode_of(cursor_view(*old(self))) == Mode::Normal,
        ensures
            cursor_view(*final(self)) == inserted(cursor_view(*old(self)), cursor_view(subst)),
            cursor_wf(cursor_view(*old(self))) && cursor_wf(cursor_view(subst))
                ==> cursor_wf(cursor_view(*final(self))),
        decreases *old(self),
    {
        match self {
            Cursor::Quote(_, inner, _) => {
                inner.insert(subst);
            },
            Cursor::Edge(_, _) => {
                let mut tmp = Cursor::Edge(Vec::new(), Vec::new());
                core::mem::swap(self, &mut tmp);
                if let Cursor::Edge(mut head, mut tail) = tmp {
                    let ghost h0: Seq<Expr> = head@;
                    let ghost t0: Seq<Expr> = tail@;
                    match subst {
                        Cursor::Edge(mut sh, mut st) => {
                            let ghost sh0: Seq<Expr> = sh@;
                            let ghost st0: Seq<Expr> = st@;
                            head.append(&mut sh);
                            st.append(&mut tail);
                            proof {
                                lemma_prog_view_concat(h0, sh0);
                                lemma_prog_view_concat(st0, t0);
                            }
                            *self = Cursor::Edge(head, st);
                        },
                        Cursor::Quote(mut sh, si, mut st) => {
                            let ghost sh0: Seq<Expr> = sh@;
                            let ghost st0: Seq<Expr> = st@;
                            head.append(&mut sh);
                            st.append(&mut tail);
                            proof {
                                lemma_prog_view_concat(h0, sh0);
                                lemma_prog_view_concat(st0, t0);
                            }
                            *self = Cursor::Quote(head, si, st);
                        },
                        Cursor::Ident(mut sh, caret, text, mut st) => {
                            let ghost sh0: Seq<Expr> = sh@;
                            let ghost st0: Seq<Expr> = st@;
                            head.append(&mut sh);
                            st.append(&mut tail);
                            proof {
                                lemma_prog_view_concat(h0, sh0);
                                lemma_prog_view_concat(st0, t0);
                            }
                            *self = Cursor::Ident(head, caret, text, st);
                        },
                        Cursor::StrLit(mut sh, caret, text, mut st) => {
                            let ghost sh0: Seq<Expr> = sh@;
                            let ghost st0: Seq<Expr> = st@;
                            head.append(&mut sh);
                            st.append(&mut tail);
                            proof {
                                lemma_prog_view_concat(h0, sh0);
                                lemma_prog_view_concat(st0, t0);
                            }
                            *self = Cursor::StrLit(head, caret, text, st);
                        },
                        Cursor::NumLit(mut sh, acc, mut st) => {
                            let ghost sh0: Seq<Expr> = sh@;
                            let ghost st0: Seq<Expr> = st@;
                            head.append(&mut sh);
                            st.append(&mut tail);
                            proof {
                                lemma_prog_view_concat(h0, sh0);
                                lemma_prog_view_concat(st0, t0);
                            }
                            *self = Cursor::NumLit(head, acc, st);
                        },
                    }
                } else {
                    proof {
                        assert(false);
                    }
                }
            },
            _ => {
                proof {
                    assert(false);
                }
            },
        }
    }

    /// Drop the expression just before the focus, if there is one.  The
    /// focus must be in normal mode.
    pub fn delete_before(&mut self)
        requires
            mode_of(cursor_view(*old(self))) == Mode::Normal,
        ensures
            cursor_view(*final(self)) == deleted_before(cursor_view(*old(self))),
            cursor_wf(cursor_view(*old(self))) ==> cursor_wf(cursor_view(*final(self))),
        decreases *old(self),
    {
        match self {
            Cursor::Edge(head, _) => {
                let ghost h0: Seq<Expr> = head@;
                let e = head.pop();
                proof {
                    lemma_prog_view(h0);
                    lemma_prog_view(head@);
                    if h0.len() > 0 {
                        assert(prog_view(head@) =~= prog_view(h0).drop_last());
                    }
                }
            },
            Cursor::Quote(_, inner, _) => {
                inner.delete_before();
            },
            _ => {
                proof {
                    assert(false);
                }
            },
        }
    }

    /// Feed one character to the token under construction.  The focus must
    /// not be in normal mode, and the cursor must be well formed.
    pub fn input(&mut self, ch: char)
        requires
            mode_of(cursor_view(*old(self))) != Mode::Normal,
            cursor_wf(cursor_view(*old(self))),
        ensures
            cursor_view(*final(self)) == input_char(cursor_view(*old(self)), ch),
            cursor_wf(cursor_view(*final(self))),
        decreases *old(self),
    {
        match self {
            Cursor::Quote(_, inner, _) => {
                inner.input(ch);
            },
            Cursor::Ident(_, n, s, _) => {
                s.insert(*n, ch);
                let l = s.len();
                assert(*n < l);
                *n = *n + 1;
            },
            Cursor::StrLit(_, n, s, _) => {
                s.insert(*n, ch);
                let l = s.len();
                assert(*n < l);
                *n = *n + 1;
            },
            Cursor::NumLit(_, acc, _) => {
                let u = ch as u32;
                if 48 <= u && u <= 57 {
                    let d = (u - 48) as i64;
                    let base: i64 = match acc {
                        Some(v) => *v,
                        None => 0,
                    };
                    match base.checked_mul(10) {
                        Some(m) => {
                            match m.checked_add(d) {
                                Some(v) => {
                                    *acc = Some(v);
                                },
                                None => {},
                            }
                        },
                        None => {},
                    }
                }
            },
            Cursor::Edge(_, _) => {
                proof {
                    assert(false);
                }
            },
        }
    }
}

} // verus!

verus! {

impl CursorShape {
    /// Structural equality of shapes; this is the trace-lookup key test.
    pub fn same_shape(&self, other: &CursorShape) -> (r: bool)
        ensures
            r == (shape_view(*self) == shape_view(*other)),
        decreases *self,
    {
        match (self, other) {
            (CursorShape::Edge(h1, t1), CursorShape::Edge(h2, t2)) => h1 == h2 && t1 == t2,
            (CursorShape::Quote(h1, i1, t1), CursorShape::Quote(h2, i2, t2)) => {
                h1 == h2 && t1 == t2 && i1.same_shape(i2)
            },
            (CursorShape::Ident(h1, t1), CursorShape::Ident(h2, t2)) => h1 == h2 && t1 == t2,
            (CursorShape::StrLit(h1, t1), CursorShape::StrLit(h2, t2)) => h1 == h2 && t1 == t2,
            (CursorShape::NumLit(h1, t1), CursorShape::NumLit(h2, t2)) => h1 == h2 && t1 == t2,
            _ => false,
        }
    }

    /// A structural copy of a shape.
    pub fn duplicate(&self) -> (r: CursorShape)
        ensures
            shape_view(r) == shape_view(*self),
        decreases *self,
    {
        match self {
            CursorShape::Edge(h, t) => CursorShape::Edge(*h, *t),
            CursorShape::Quote(h, i, t) => CursorShape::Quote(*h, Box::new(i.duplicate()), *t),
            CursorShape::Ident(h, t) => CursorShape::Ident(*h, *t),
            CursorShape::StrLit(h, t) => CursorShape::StrLit(*h, *t),
            CursorShape::NumLit(h, t) => CursorShape::NumLit(*h, *t),
        }
    }
}

impl Cursor {
    /// A structural copy: the copy has the same model as the original.
    pub fn duplicate(&self) -> (r: Cursor)
        ensures
            cursor_view(r) == cursor_view(*self),
        decreases *self,
    {
        match self {
            Cursor::Edge(head, tail) => Cursor::Edge(duplicate_program(head), duplicate_program(tail)),
            Cursor::Quote(head, inner, tail) => {
                let r = Cursor::Quote(duplicate_program(head), Box::new(inner.duplicate()), duplicate_program(tail));
                assert(cursor_view(r) =~= cursor_view(*self));
                r
            },
            Cursor::Ident(head, caret, text, tail) => {
                Cursor::Ident(duplicate_program(head), *caret, text.clone(), duplicate_program(tail))
            },
            Cursor::StrLit(head, caret, text, tail) => {
                Cursor::StrLit(duplicate_program(head), *caret, text.clone(), duplicate_program(tail))
            },
            Cursor::NumLit(head, acc, tail) => {
                let a = match acc {
                    Some(n) => Some(*n),
                    None => None,
                };
                Cursor::NumLit(duplicate_program(head), a, duplicate_program(tail))
            },
        }
    }
}

/// Whether the innermost focus is an `Edge` with something on its right.
pub open spec fn edge_with_right(c: CursorView) -> bool
    decreases c,
{
    match c {
        CursorView::Edge { tail, .. } => tail.len() > 0,
        CursorView::Quote { inner, .. } => edge_with_right(*inner),
        _ => false,
    }
}

/// Whether the innermost focus is an `Edge` with something on its left.
pub open spec fn edge_with_left(c: CursorView) -> bool
    decreases c,
{
    match c {
        CursorView::Edge { head, .. } => head.len() > 0,
        CursorView::Quote { inner, .. } => edge_with_left(*inner),
        _ => false,
    }
}

/// On an `Edge` focus that is not at the right boundary, moving right and
/// then left restores the original split.
pub proof fn lemma_move_right_then_left(c: CursorView)
    requires
        edge_with_right(c),
    ensures
        moved_left(moved_right(c)) == c,
    decreases c,
{
    match c {
        CursorView::Edge { head, tail } => {
            assert(moved_left(moved_right(c)) =~= c);
        },
        CursorView::Quote { head, inner, tail } => {
            lemma_move_right_then_left(*inner);
            assert(moved_left(moved_right(c)) =~= c);
        },
        _ => {},
    }
}

/// On an `Edge` focus that is not at the left boundary, moving left and
/// then right restores the original split.
pub proof fn lemma_move_left_then_right(c: CursorView)
    requires
        edge_with_left(c),
    ensures
        moved_right(moved_left(c)) == c,
    decreases c,
{
    match c {
        CursorView::Edge { head, tail } => {
            assert(moved_right(moved_left(c)) =~= c);
        },
        CursorView::Quote { head, inner, tail } => {
            lemma_move_left_then_right(*inner);
            assert(moved_right(moved_left(c)) =~= c);
        },
        _ => {},
    }
}

/// The length skeleton of two cursors agrees: same variant at every level,
/// with equal head, tail and, through `Quote`, inner skeletons.
pub open spec fn same_skeleton(c1: CursorView, c2: CursorView) -> bool
    decreases c1,
{
    match (c1, c2) {
        (CursorView::Edge { head: h1, tail: t1 }, CursorView::Edge { head: h2, tail: t2 }) => {
            h1.len() == h2.len() && t1.len() == t2.len()
        },
        (
            CursorView::Quote { head: h1, inner: i1, tail: t1 },
            CursorView::Quote { head: h2, inner: i2, tail: t2 },
        ) => {
            h1.len() == h2.len() && t1.len() == t2.len() && same_skeleton(*i1, *i2)
        },
        (CursorView::Ident { head: h1, tail: t1, .. }, CursorView::Ident { head: h2, tail: t2, .. }) => {
            h1.len() == h2.len() && t1.len() == t2.len()
        },
        (CursorView::StrLit { head: h1, tail: t1, .. }, CursorView::StrLit { head: h2, tail: t2, .. }) => {
            h1.len() == h2.len() && t1.len() == t2.len()
        },
        (CursorView::NumLit { head: h1, tail: t1, .. }, CursorView::NumLit { head: h2, tail: t2, .. }) => {
            h1.len() == h2.len() && t1.len() == t2.len()
        },
        _ => false,
    }
}

/// Shape equality says nothing about token contents: two cursors have equal
/// shapes exactly when their length skeletons agree, whatever their
/// contents are.
pub proof fn lemma_shape_is_skeleton(c1: CursorView, c2: CursorView)
    ensures
        (shape_of(c1) == shape_of(c2)) <==> same_skeleton(c1, c2),
    decreases c1,
{
    match (c1, c2) {
        (CursorView::Quote { inner: i1, .. }, CursorView::Quote { inner: i2, .. }) => {
            lemma_shape_is_skeleton(*i1, *i2);
            if same_skeleton(c1, c2) {
                assert(shape_of(c1) =~= shape_of(c2));
            }
        },
        _ => {
            if same_skeleton(c1, c2) {
                assert(shape_of(c1) =~= shape_of(c2));
            }
        },
    }
}

} // verus!
