//! The expression tree of the little concatenative language: identifiers,
//! string literals, integer literals and quoted sub-programs.

use vstd::prelude::*;

verus! {

/// One token of a program.  A program is an ordered sequence of these,
/// executed left to right; a `Quote` holds an unevaluated sub-program.
#[derive(Debug)]
pub enum Expr {
    Ident(Vec<char>),
    StrLit(Vec<char>),
    NumLit(i64),
    Quote(Vec<Expr>),
}

/// A program: the execution order is the vector order.
pub type Program = Vec<Expr>;

/// The mathematical model of an expression: text becomes `Seq<char>`,
/// numbers become unbounded integers, quote bodies become sequences.
#[verifier::ext_equal]
pub enum ExprView {
    Ident { text: Seq<char> },
    StrLit { text: Seq<char> },
    NumLit { n: int },
    Quote { body: Seq<ExprView> },
}

/// The model of one expression.
pub open spec fn expr_view(e: Expr) -> ExprView
    decreases e,
{
    match e {
        Expr::Ident(t) => ExprView::Ident { text: t@ },
        Expr::StrLit(t) => ExprView::StrLit { text: t@ },
        Expr::NumLit(n) => ExprView::NumLit { n: n as int },
        Expr::Quote(b) => ExprView::Quote { body: prog_view(b@) },
    }
}

/// The model of a sequence of expressions, element by element.
pub open spec fn prog_view(s: Seq<Expr>) -> Seq<ExprView>
    decreases s,
{
    if s.len() == 0 {
        Seq::empty()
    } else {
        prog_view(s.subrange(0, s.len() - 1)).push(expr_view(s[s.len() - 1]))
    }
}

/// `prog_view` maps `expr_view` over the sequence, element by element.
pub broadcast proof fn lemma_prog_view(s: Seq<Expr>)
    ensures
        (#[trigger] prog_view(s)).len() == s.len(),
        forall|i: int| 0 <= i < s.len() ==> prog_view(s)[i] == expr_view(s[i]),
    decreases s,
{
    if s.len() > 0 {
        lemma_prog_view(s.subrange(0, s.len() - 1));
    }
}

impl Expr {
    /// A structural copy: the copy has the same model as the original.
    pub fn duplicate(&self) -> (r: Expr)
        ensures
            expr_view(r) == expr_view(*self),
        decreases *self,
    {
        match self {
            Expr::Ident(t) => Expr::Ident(t.clone()),
            Expr::StrLit(t) => Expr::StrLit(t.clone()),
            Expr::NumLit(n) => Expr::NumLit(*n),
            Expr::Quote(b) => {
                let r = Expr::Quote(duplicate_program(b));
                assert(expr_view(r) =~= expr_view(*self));
                r
            },
        }
    }
}

/// A structural copy of a whole program.
pub fn duplicate_program(p: &Program) -> (r: Program)
    ensures
        prog_view(r@) == prog_view(p@),
    decreases p@,
{
    broadcast use lemma_prog_view;

    let mut r: Vec<Expr> = Vec::new();
    let n = p.len();
    let mut i: usize = 0;
    while i < n
        invariant
            n == p.len(),
            i <= n,
            prog_view(r@) =~= prog_view(p@).take(i as int),
        decreases n - i,
    {
        let ghost r0: Seq<Expr> = r@;
        r.push(p[i].duplicate());
        proof {
            lemma_prog_view(r0);
            lemma_prog_view(r@);
            lemma_prog_view(p@);
        }
        assert(prog_view(r@) =~= prog_view(p@).take(i + 1));
        i += 1;
    }
    assert(prog_view(p@).take(n as int) =~= prog_view(p@));
    r
}

} // verus!
