//! The total order on runtime values, defined structurally over their
//! models: variants rank below one another, and within a variant the
//! fields compare lexicographically.  The multiset of values and the
//! sorting primitives rest on this order.

use vstd::prelude::*;
use crate::syntax::{Expr, ExprView, expr_view, prog_view, lemma_prog_view};
use crate::editor::{Cursor, CursorView, cursor_view};
use crate::order::{Cmp, StrictOrder};
use crate::value::{Value, ValueView, value_view, values_view, value_pairs_view, lemma_values_view, lemma_value_pairs_view};

verus! {

/// Three-way comparison of two characters, by code.
pub open spec fn cmp_char(a: char, b: char) -> int {
    if (a as u32) < (b as u32) {
        -1
    } else if (a as u32) > (b as u32) {
        1
    } else {
        0
    }
}

/// Three-way comparison of two integers.
pub open spec fn cmp_int(a: int, b: int) -> int {
    if a < b {
        -1
    } else if a > b {
        1
    } else {
        0
    }
}

/// Lexicographic comparison of two character sequences.
pub open spec fn cmp_chars(a: Seq<char>, b: Seq<char>) -> int
    decreases a.len(),
{
    if a.len() == 0 && b.len() == 0 {
        0
    } else if a.len() == 0 {
        -1
    } else if b.len() == 0 {
        1
    } else if cmp_char(a[0], b[0]) != 0 {
        cmp_char(a[0], b[0])
    } else {
        cmp_chars(a.drop_first(), b.drop_first())
    }
}

/// Three-way comparison of optional integers; nothing ranks below
/// something.
pub open spec fn cmp_opt_int(a: Option<int>, b: Option<int>) -> int {
    match (a, b) {
        (Option::None, Option::None) => 0,
        (Option::None, Option::Some(_)) => -1,
        (Option::Some(_), Option::None) => 1,
        (Option::Some(x), Option::Some(y)) => cmp_int(x, y),
    }
}

/// The rank of an expression variant.
pub open spec fn expr_rank(e: ExprView) -> int {
    match e {
        ExprView::Ident { .. } => 0,
        ExprView::StrLit { .. } => 1,
        ExprView::NumLit { .. } => 2,
        ExprView::Quote { .. } => 3,
    }
}

/// Three-way comparison of two expressions.
pub open spec fn cmp_expr(a: ExprView, b: ExprView) -> int
    decreases a,
{
    if expr_rank(a) != expr_rank(b) {
        cmp_int(expr_rank(a), expr_rank(b))
    } else {
        match (a, b) {
            (ExprView::Ident { text: t1 }, ExprView::Ident { text: t2 }) => cmp_chars(t1, t2),
            (ExprView::StrLit { text: t1 }, ExprView::StrLit { text: t2 }) => cmp_chars(t1, t2),
            (ExprView::NumLit { n: n1 }, ExprView::NumLit { n: n2 }) => cmp_int(n1, n2),
            (ExprView::Quote { body: b1 }, ExprView::Quote { body: b2 }) => cmp_exprs(b1, b2),
            _ => 0,
        }
    }
}

/// Lexicographic comparison of two expression sequences.
pub open spec fn cmp_exprs(a: Seq<ExprView>, b: Seq<ExprView>) -> int
    decreases a,
{
    if a.len() == 0 && b.len() == 0 {
        0
    } else if a.len() == 0 {
        -1
    } else if b.len() == 0 {
        1
    } else if cmp_expr(a[0], b[0]) != 0 {
        cmp_expr(a[0], b[0])
    } else {
        cmp_exprs(a.drop_first(), b.drop_first())
    }
}

/// The rank of a cursor variant.
pub open spec fn cursor_rank(c: CursorView) -> int {
    match c {
        CursorView::Edge { .. } => 0,
        CursorView::Quote { .. } => 1,
        CursorView::Ident { .. } => 2,
        CursorView::StrLit { .. } => 3,
        CursorView::NumLit { .. } => 4,
    }
}

/// Chain two comparison outcomes lexicographically.
pub open spec fn cmp_then(c1: int, c2: int) -> int {
    if c1 != 0 {
        c1
    } else {
        c2
    }
}

/// Three-way comparison of two cursors.
pub open spec fn cmp_cursor(a: CursorView, b: CursorView) -> int
    decreases a,
{
    if cursor_rank(a) != cursor_rank(b) {
        cmp_int(cursor_rank(a), cursor_rank(b))
    } else {
        match (a, b) {
            (CursorView::Edge { head: h1, tail: t1 }, CursorView::Edge { head: h2, tail: t2 }) => {
                cmp_then(cmp_exprs(h1, h2), cmp_exprs(t1, t2))
            },
            (
                CursorView::Quote { head: h1, inner: i1, tail: t1 },
                CursorView::Quote { head: h2, inner: i2, tail: t2 },
            ) => {
                cmp_then(cmp_exprs(h1, h2), cmp_then(cmp_cursor(*i1, *i2), cmp_exprs(t1, t2)))
            },
            (
                CursorView::Ident { head: h1, caret: c1, text: x1, tail: t1 },
                CursorView::Ident { head: h2, caret: c2, text: x2, tail: t2 },
            ) => {
                cmp_then(
                    cmp_exprs(h1, h2),
                    cmp_then(cmp_int(c1, c2), cmp_then(cmp_chars(x1, x2), cmp_exprs(t1, t2))),
                )
            },
            (
                CursorView::StrLit { head: h1, caret: c1, text: x1, tail: t1 },
                CursorView::StrLit { head: h2, caret: c2, text: x2, tail: t2 },
            ) => {
                cmp_then(
                    cmp_exprs(h1, h2),
                    cmp_then(cmp_int(c1, c2), cmp_then(cmp_chars(x1, x2), cmp_exprs(t1, t2))),
                )
            },
            (
                CursorView::NumLit { head: h1, acc: a1, tail: t1 },
                CursorView::NumLit { head: h2, acc: a2, tail: t2 },
            ) => {
                cmp_then(cmp_exprs(h1, h2), cmp_then(cmp_opt_int(a1, a2), cmp_exprs(t1, t2)))
            },
            _ => 0,
        }
    }
}

/// The rank of a value variant.
pub open spec fn value_rank(v: ValueView) -> int {
    match v {
        ValueView::Poison => 0,
        ValueView::Char { .. } => 1,
        ValueView::Num { .. } => 2,
        ValueView::List { .. } => 3,
        ValueView::Mset { .. } => 4,
        ValueView::Quote { .. } => 5,
    }
}

/// Three-way comparison of two values.
pub open spec fn cmp_value(a: ValueView, b: ValueView) -> int
    decreases a,
{
    if value_rank(a) != value_rank(b) {
        cmp_int(value_rank(a), value_rank(b))
    } else {
        match (a, b) {
            (ValueView::Char { c: c1 }, ValueView::Char { c: c2 }) => cmp_char(c1, c2),
            (ValueView::Num { n: n1 }, ValueView::Num { n: n2 }) => cmp_int(n1, n2),
            (ValueView::List { items: i1 }, ValueView::List { items: i2 }) => cmp_values(i1, i2),
            (ValueView::Mset { pairs: p1 }, ValueView::Mset { pairs: p2 }) => cmp_value_pairs(p1, p2),
            (ValueView::Quote { pos: q1 }, ValueView::Quote { pos: q2 }) => cmp_cursor(*q1, *q2),
            _ => 0,
        }
    }
}

/// Lexicographic comparison of two value sequences.
pub open spec fn cmp_values(a: Seq<ValueView>, b: Seq<ValueView>) -> int
    decreases a,
{
    if a.len() == 0 && b.len() == 0 {
        0
    } else if a.len() == 0 {
        -1
    } else if b.len() == 0 {
        1
    } else if cmp_value(a[0], b[0]) != 0 {
        cmp_value(a[0], b[0])
    } else {
        cmp_values(a.drop_first(), b.drop_first())
    }
}

/// Lexicographic comparison of two (value, multiplicity) pair sequences.
pub open spec fn cmp_value_pairs(a: Seq<(ValueView, int)>, b: Seq<(ValueView, int)>) -> int
    decreases a,
{
    if a.len() == 0 && b.len() == 0 {
        0
    } else if a.len() == 0 {
        -1
    } else if b.len() == 0 {
        1
    } else if cmp_then(cmp_value(a[0].0, b[0].0), cmp_int(a[0].1, b[0].1)) != 0 {
        cmp_then(cmp_value(a[0].0, b[0].0), cmp_int(a[0].1, b[0].1))
    } else {
        cmp_value_pairs(a.drop_first(), b.drop_first())
    }
}

} // verus!

verus! {

/// A comparison outcome is one of three values; used throughout below.
pub proof fn lemma_cmp_chars_flip(a: Seq<char>, b: Seq<char>)
    ensures
        -1 <= cmp_chars(a, b) <= 1,
        cmp_chars(b, a) == -cmp_chars(a, b),
    decreases a,
{
    if a.len() > 0 && b.len() > 0 && cmp_char(a[0], b[0]) == 0 {
        lemma_cmp_chars_flip(a.drop_first(), b.drop_first());
    }
}

/// Two character sequences compare as equal exactly when they are equal.
pub proof fn lemma_cmp_chars_eq(a: Seq<char>, b: Seq<char>)
    ensures
        (cmp_chars(a, b) == 0) <==> (a == b),
    decreases a,
{
    if a.len() == 0 && b.len() == 0 {
        assert(a =~= b);
    } else if a.len() > 0 && b.len() > 0 {
        lemma_cmp_chars_eq(a.drop_first(), b.drop_first());
        if cmp_chars(a, b) == 0 {
            assert(a[0] as u32 == b[0] as u32);
            assert(a[0] == b[0]) by {
                lemma_char_code_injective(a[0], b[0]);
            }
            assert(a =~= seq![a[0]] + a.drop_first());
            assert(b =~= seq![b[0]] + b.drop_first());
        }
        if a == b {
            assert(a.drop_first() =~= b.drop_first());
        }
    } else {
        assert(a.len() != b.len());
    }
}

/// Two characters with the same code are the same character.
pub proof fn lemma_char_code_injective(a: char, b: char)
    requires
        a as u32 == b as u32,
    ensures
        a == b,
{
    assert(a as int == b as int);
}

/// Character comparison is transitive, strictly where a premise is strict.
pub proof fn lemma_cmp_chars_trans(a: Seq<char>, b: Seq<char>, c: Seq<char>)
    requires
        cmp_chars(a, b) <= 0,
        cmp_chars(b, c) <= 0,
    ensures
        cmp_chars(a, c) <= 0,
        cmp_chars(a, b) < 0 || cmp_chars(b, c) < 0 ==> cmp_chars(a, c) < 0,
    decreases a,
{
    lemma_cmp_chars_eq(a, b);
    lemma_cmp_chars_eq(b, c);
    lemma_cmp_chars_eq(a, c);
    if cmp_chars(a, b) == 0 {
    } else if cmp_chars(b, c) == 0 {
    } else {
        if a.len() == 0 {
            assert(b.len() > 0);
            assert(c.len() > 0);
        } else {
            assert(b.len() > 0 && c.len() > 0);
            let h1 = cmp_char(a[0], b[0]);
            let h2 = cmp_char(b[0], c[0]);
            if h1 == 0 {
                if h2 == 0 {
                    assert(cmp_char(a[0], c[0]) == 0);
                    lemma_cmp_chars_trans(a.drop_first(), b.drop_first(), c.drop_first());
                } else {
                    assert(h2 < 0);
                    assert(cmp_char(a[0], c[0]) < 0);
                }
            } else {
                assert(h1 < 0);
                if h2 == 0 {
                    assert(cmp_char(a[0], c[0]) < 0);
                } else {
                    assert(h2 < 0);
                    assert(cmp_char(a[0], c[0]) < 0);
                }
            }
        }
    }
}

/// Flip and range for expressions and expression sequences.
pub proof fn lemma_cmp_expr_flip(a: ExprView, b: ExprView)
    ensures
        -1 <= cmp_expr(a, b) <= 1,
        cmp_expr(b, a) == -cmp_expr(a, b),
    decreases a,
{
    if expr_rank(a) == expr_rank(b) {
        match (a, b) {
            (ExprView::Ident { text: t1 }, ExprView::Ident { text: t2 }) => {
                lemma_cmp_chars_flip(t1, t2);
            },
            (ExprView::StrLit { text: t1 }, ExprView::StrLit { text: t2 }) => {
                lemma_cmp_chars_flip(t1, t2);
            },
            (ExprView::Quote { body: b1 }, ExprView::Quote { body: b2 }) => {
                lemma_cmp_exprs_flip(b1, b2);
            },
            _ => {},
        }
    }
}

pub proof fn lemma_cmp_exprs_flip(a: Seq<ExprView>, b: Seq<ExprView>)
    ensures
        -1 <= cmp_exprs(a, b) <= 1,
        cmp_exprs(b, a) == -cmp_exprs(a, b),
    decreases a,
{
    if a.len() > 0 && b.len() > 0 {
        lemma_cmp_expr_flip(a[0], b[0]);
        if cmp_expr(a[0], b[0]) == 0 {
            lemma_cmp_exprs_flip(a.drop_first(), b.drop_first());
        }
    }
}

/// Equality for expressions and expression sequences.
pub proof fn lemma_cmp_expr_eq(a: ExprView, b: ExprView)
    ensures
        (cmp_expr(a, b) == 0) <==> (a == b),
    decreases a,
{
    if expr_rank(a) == expr_rank(b) {
        match (a, b) {
            (ExprView::Ident { text: t1 }, ExprView::Ident { text: t2 }) => {
                lemma_cmp_chars_eq(t1, t2);
            },
            (ExprView::StrLit { text: t1 }, ExprView::StrLit { text: t2 }) => {
                lemma_cmp_chars_eq(t1, t2);
            },
            (ExprView::Quote { body: b1 }, ExprView::Quote { body: b2 }) => {
                lemma_cmp_exprs_eq(b1, b2);
            },
            _ => {},
        }
    }
}

pub proof fn lemma_cmp_exprs_eq(a: Seq<ExprView>, b: Seq<ExprView>)
    ensures
        (cmp_exprs(a, b) == 0) <==> (a == b),
    decreases a,
{
    if a.len() == 0 && b.len() == 0 {
        assert(a =~= b);
    } else if a.len() > 0 && b.len() > 0 {
        lemma_cmp_expr_eq(a[0], b[0]);
        lemma_cmp_exprs_eq(a.drop_first(), b.drop_first());
        if cmp_exprs(a, b) == 0 {
            assert(a =~= seq![a[0]] + a.drop_first());
            assert(b =~= seq![b[0]] + b.drop_first());
        }
        if a == b {
            assert(a.drop_first() =~= b.drop_first());
        }
    } else {
        assert(a.len() != b.len());
    }
}

/// Transitivity for expressions and expression sequences.
pub proof fn lemma_cmp_expr_trans(a: ExprView, b: ExprView, c: ExprView)
    requires
        cmp_expr(a, b) <= 0,
        cmp_expr(b, c) <= 0,
    ensures
        cmp_expr(a, c) <= 0,
        cmp_expr(a, b) < 0 || cmp_expr(b, c) < 0 ==> cmp_expr(a, c) < 0,
    decreases a,
{
    lemma_cmp_expr_eq(a, b);
    lemma_cmp_expr_eq(b, c);
    lemma_cmp_expr_eq(a, c);
    if cmp_expr(a, b) == 0 || cmp_expr(b, c) == 0 {
    } else if expr_rank(a) == expr_rank(b) && expr_rank(b) == expr_rank(c) {
        match (a, b, c) {
            (
                ExprView::Ident { text: t1 },
                ExprView::Ident { text: t2 },
                ExprView::Ident { text: t3 },
            ) => {
                lemma_cmp_chars_trans(t1, t2, t3);
            },
            (
                ExprView::StrLit { text: t1 },
                ExprView::StrLit { text: t2 },
                ExprView::StrLit { text: t3 },
            ) => {
                lemma_cmp_chars_trans(t1, t2, t3);
            },
            (
                ExprView::Quote { body: b1 },
                ExprView::Quote { body: b2 },
                ExprView::Quote { body: b3 },
            ) => {
                lemma_cmp_exprs_trans(b1, b2, b3);
            },
            _ => {},
        }
    }
}

pub proof fn lemma_cmp_exprs_trans(a: Seq<ExprView>, b: Seq<ExprView>, c: Seq<ExprView>)
    requires
        cmp_exprs(a, b) <= 0,
        cmp_exprs(b, c) <= 0,
    ensures
        cmp_exprs(a, c) <= 0,
        cmp_exprs(a, b) < 0 || cmp_exprs(b, c) < 0 ==> cmp_exprs(a, c) < 0,
    decreases a,
{
    lemma_cmp_exprs_eq(a, b);
    lemma_cmp_exprs_eq(b, c);
    lemma_cmp_exprs_eq(a, c);
    if cmp_exprs(a, b) == 0 || cmp_exprs(b, c) == 0 {
    } else if a.len() == 0 {
        assert(b.len() > 0);
        assert(c.len() > 0);
    } else {
        assert(b.len() > 0 && c.len() > 0);
        let h1 = cmp_expr(a[0], b[0]);
        let h2 = cmp_expr(b[0], c[0]);
        lemma_cmp_expr_eq(a[0], b[0]);
        lemma_cmp_expr_eq(b[0], c[0]);
        lemma_cmp_expr_flip(a[0], b[0]);
        lemma_cmp_expr_flip(b[0], c[0]);
        if h1 == 0 && h2 == 0 {
            lemma_cmp_exprs_trans(a.drop_first(), b.drop_first(), c.drop_first());
        } else {
            lemma_cmp_expr_trans(a[0], b[0], c[0]);
        }
    }
}

} // verus!

verus! {

/// Flip and range for cursors.
pub proof fn lemma_cmp_cursor_flip(a: CursorView, b: CursorView)
    ensures
        -1 <= cmp_cursor(a, b) <= 1,
        cmp_cursor(b, a) == -cmp_cursor(a, b),
    decreases a,
{
    if cursor_rank(a) == cursor_rank(b) {
        match (a, b) {
            (CursorView::Edge { head: h1, tail: t1 }, CursorView::Edge { head: h2, tail: t2 }) => {
                lemma_cmp_exprs_flip(h1, h2);
                lemma_cmp_exprs_flip(t1, t2);
            },
            (
                CursorView::Quote { head: h1, inner: i1, tail: t1 },
                CursorView::Quote { head: h2, inner: i2, tail: t2 },
            ) => {
                lemma_cmp_exprs_flip(h1, h2);
                lemma_cmp_cursor_flip(*i1, *i2);
                lemma_cmp_exprs_flip(t1, t2);
            },
            (
                CursorView::Ident { head: h1, caret: c1, text: x1, tail: t1 },
                CursorView::Ident { head: h2, caret: c2, text: x2, tail: t2 },
            ) => {
                lemma_cmp_exprs_flip(h1, h2);
                lemma_cmp_chars_flip(x1, x2);
                lemma_cmp_exprs_flip(t1, t2);
            },
            (
                CursorView::StrLit { head: h1, caret: c1, text: x1, tail: t1 },
                CursorView::StrLit { head: h2, caret: c2, text: x2, tail: t2 },
            ) => {
                lemma_cmp_exprs_flip(h1, h2);
                lemma_cmp_chars_flip(x1, x2);
                lemma_cmp_exprs_flip(t1, t2);
            },
            (
                CursorView::NumLit { head: h1, acc: a1, tail: t1 },
                CursorView::NumLit { head: h2, acc: a2, tail: t2 },
            ) => {
                lemma_cmp_exprs_flip(h1, h2);
                lemma_cmp_exprs_flip(t1, t2);
            },
            _ => {},
        }
    }
}

/// Equality for cursors.
pub proof fn lemma_cmp_cursor_eq(a: CursorView, b: CursorView)
    ensures
        (cmp_cursor(a, b) == 0) <==> (a == b),
    decreases a,
{
    if cursor_rank(a) == cursor_rank(b) {
        match (a, b) {
            (CursorView::Edge { head: h1, tail: t1 }, CursorView::Edge { head: h2, tail: t2 }) => {
                lemma_cmp_exprs_eq(h1, h2);
                lemma_cmp_exprs_eq(t1, t2);
            },
            (
                CursorView::Quote { head: h1, inner: i1, tail: t1 },
                CursorView::Quote { head: h2, inner: i2, tail: t2 },
            ) => {
                lemma_cmp_exprs_eq(h1, h2);
                lemma_cmp_cursor_eq(*i1, *i2);
                lemma_cmp_exprs_eq(t1, t2);
                if cmp_cursor(a, b) == 0 {
                    assert(*i1 == *i2);
                    assert(i1 == i2);
                }
            },
            (
                CursorView::Ident { head: h1, caret: c1, text: x1, tail: t1 },
                CursorView::Ident { head: h2, caret: c2, text: x2, tail: t2 },
            ) => {
                lemma_cmp_exprs_eq(h1, h2);
                lemma_cmp_chars_eq(x1, x2);
                lemma_cmp_exprs_eq(t1, t2);
            },
            (
                CursorView::StrLit { head: h1, caret: c1, text: x1, tail: t1 },
                CursorView::StrLit { head: h2, caret: c2, text: x2, tail: t2 },
            ) => {
                lemma_cmp_exprs_eq(h1, h2);
                lemma_cmp_chars_eq(x1, x2);
                lemma_cmp_exprs_eq(t1, t2);
            },
            (
                CursorView::NumLit { head: h1, acc: a1, tail: t1 },
                CursorView::NumLit { head: h2, acc: a2, tail: t2 },
            ) => {
                lemma_cmp_exprs_eq(h1, h2);
                lemma_cmp_exprs_eq(t1, t2);
            },
            _ => {},
        }
    }
}

/// Transitivity for cursors.
pub proof fn lemma_cmp_cursor_trans(a: CursorView, b: CursorView, c: CursorView)
    requires
        cmp_cursor(a, b) <= 0,
        cmp_cursor(b, c) <= 0,
    ensures
        cmp_cursor(a, c) <= 0,
        cmp_cursor(a, b) < 0 || cmp_cursor(b, c) < 0 ==> cmp_cursor(a, c) < 0,
    decreases a,
{
    lemma_cmp_cursor_eq(a, b);
    lemma_cmp_cursor_eq(b, c);
    lemma_cmp_cursor_eq(a, c);
    if cmp_cursor(a, b) == 0 || cmp_cursor(b, c) == 0 {
    } else if cursor_rank(a) == cursor_rank(b) && cursor_rank(b) == cursor_rank(c) {
        match (a, b, c) {
            (
                CursorView::Edge { head: h1, tail: t1 },
                CursorView::Edge { head: h2, tail: t2 },
                CursorView::Edge { head: h3, tail: t3 },
            ) => {
                lemma_cmp_exprs_eq(h1, h2);
                lemma_cmp_exprs_eq(h2, h3);
                lemma_cmp_exprs_eq(h1, h3);
                if cmp_exprs(h1, h2) == 0 && cmp_exprs(h2, h3) == 0 {
                    lemma_cmp_exprs_trans(t1, t2, t3);
                } else {
                    lemma_cmp_exprs_trans(h1, h2, h3);
                }
            },
            (
                CursorView::Quote { head: h1, inner: i1, tail: t1 },
                CursorView::Quote { head: h2, inner: i2, tail: t2 },
                CursorView::Quote { head: h3, inner: i3, tail: t3 },
            ) => {
                lemma_cmp_exprs_eq(h1, h2);
                lemma_cmp_exprs_eq(h2, h3);
                lemma_cmp_exprs_eq(h1, h3);
                if cmp_exprs(h1, h2) == 0 && cmp_exprs(h2, h3) == 0 {
                    lemma_cmp_cursor_eq(*i1, *i2);
                    lemma_cmp_cursor_eq(*i2, *i3);
                    lemma_cmp_cursor_eq(*i1, *i3);
                    if cmp_cursor(*i1, *i2) == 0 && cmp_cursor(*i2, *i3) == 0 {
                        lemma_cmp_exprs_trans(t1, t2, t3);
                    } else {
                        lemma_cmp_cursor_trans(*i1, *i2, *i3);
                    }
                } else {
                    lemma_cmp_exprs_trans(h1, h2, h3);
                }
            },
            (
                CursorView::Ident { head: h1, caret: c1, text: x1, tail: t1 },
                CursorView::Ident { head: h2, caret: c2, text: x2, tail: t2 },
                CursorView::Ident { head: h3, caret: c3, text: x3, tail: t3 },
            ) => {
                lemma_cmp_exprs_eq(h1, h2);
                lemma_cmp_exprs_eq(h2, h3);
                lemma_cmp_exprs_eq(h1, h3);
                if cmp_exprs(h1, h2) == 0 && cmp_exprs(h2, h3) == 0 {
                    if c1 == c2 && c2 == c3 {
                        lemma_cmp_chars_eq(x1, x2);
                        lemma_cmp_chars_eq(x2, x3);
                        lemma_cmp_chars_eq(x1, x3);
                        if cmp_chars(x1, x2) == 0 && cmp_chars(x2, x3) == 0 {
                            lemma_cmp_exprs_trans(t1, t2, t3);
                        } else {
                            lemma_cmp_chars_trans(x1, x2, x3);
                        }
                    }
                } else {
                    lemma_cmp_exprs_trans(h1, h2, h3);
                }
            },
            (
                CursorView::StrLit { head: h1, caret: c1, text: x1, tail: t1 },
                CursorView::StrLit { head: h2, caret: c2, text: x2, tail: t2 },
                CursorView::StrLit { head: h3, caret: c3, text: x3, tail: t3 },
            ) => {
                lemma_cmp_exprs_eq(h1, h2);
                lemma_cmp_exprs_eq(h2, h3);
                lemma_cmp_exprs_eq(h1, h3);
                if cmp_exprs(h1, h2) == 0 && cmp_exprs(h2, h3) == 0 {
                    if c1 == c2 && c2 == c3 {
                        lemma_cmp_chars_eq(x1, x2);
                        lemma_cmp_chars_eq(x2, x3);
                        lemma_cmp_chars_eq(x1, x3);
                        if cmp_chars(x1, x2) == 0 && cmp_chars(x2, x3) == 0 {
                            lemma_cmp_exprs_trans(t1, t2, t3);
                        } else {
                            lemma_cmp_chars_trans(x1, x2, x3);
                        }
                    }
                } else {
                    lemma_cmp_exprs_trans(h1, h2, h3);
                }
            },
            (
                CursorView::NumLit { head: h1, acc: a1, tail: t1 },
                CursorView::NumLit { head: h2, acc: a2, tail: t2 },
                CursorView::NumLit { head: h3, acc: a3, tail: t3 },
            ) => {
                lemma_cmp_exprs_eq(h1, h2);
                lemma_cmp_exprs_eq(h2, h3);
                lemma_cmp_exprs_eq(h1, h3);
                if cmp_exprs(h1, h2) == 0 && cmp_exprs(h2, h3) == 0 {
                    if cmp_opt_int(a1, a2) == 0 && cmp_opt_int(a2, a3) == 0 {
                        lemma_cmp_exprs_trans(t1, t2, t3);
                    }
                } else {
                    lemma_cmp_exprs_trans(h1, h2, h3);
                }
            },
            _ => {},
        }
    }
}


} // verus!

verus! {

/// Flip and range for values, value sequences and pair sequences.
pub proof fn lemma_cmp_value_flip(a: ValueView, b: ValueView)
    ensures
        -1 <= cmp_value(a, b) <= 1,
        cmp_value(b, a) == -cmp_value(a, b),
    decreases a,
{
    if value_rank(a) == value_rank(b) {
        match (a, b) {
            (ValueView::List { items: i1 }, ValueView::List { items: i2 }) => {
                lemma_cmp_values_flip(i1, i2);
            },
            (ValueView::Mset { pairs: p1 }, ValueView::Mset { pairs: p2 }) => {
                lemma_cmp_value_pairs_flip(p1, p2);
            },
            (ValueView::Quote { pos: q1 }, ValueView::Quote { pos: q2 }) => {
                lemma_cmp_cursor_flip(*q1, *q2);
            },
            _ => {},
        }
    }
}

pub proof fn lemma_cmp_values_flip(a: Seq<ValueView>, b: Seq<ValueView>)
    ensures
        -1 <= cmp_values(a, b) <= 1,
        cmp_values(b, a) == -cmp_values(a, b),
    decreases a,
{
    if a.len() > 0 && b.len() > 0 {
        lemma_cmp_value_flip(a[0], b[0]);
        if cmp_value(a[0], b[0]) == 0 {
            lemma_cmp_values_flip(a.drop_first(), b.drop_first());
        }
    }
}

pub proof fn lemma_cmp_value_pairs_flip(a: Seq<(ValueView, int)>, b: Seq<(ValueView, int)>)
    ensures
        -1 <= cmp_value_pairs(a, b) <= 1,
        cmp_value_pairs(b, a) == -cmp_value_pairs(a, b),
    decreases a,
{
    if a.len() > 0 && b.len() > 0 {
        lemma_cmp_value_flip(a[0].0, b[0].0);
        if cmp_then(cmp_value(a[0].0, b[0].0), cmp_int(a[0].1, b[0].1)) == 0 {
            lemma_cmp_value_pairs_flip(a.drop_first(), b.drop_first());
        }
    }
}

/// Equality for values, value sequences and pair sequences.
pub proof fn lemma_cmp_value_eq(a: ValueView, b: ValueView)
    ensures
        (cmp_value(a, b) == 0) <==> (a == b),
    decreases a,
{
    if value_rank(a) == value_rank(b) {
        match (a, b) {
            (ValueView::List { items: i1 }, ValueView::List { items: i2 }) => {
                lemma_cmp_values_eq(i1, i2);
            },
            (ValueView::Mset { pairs: p1 }, ValueView::Mset { pairs: p2 }) => {
                lemma_cmp_value_pairs_eq(p1, p2);
            },
            (ValueView::Quote { pos: q1 }, ValueView::Quote { pos: q2 }) => {
                lemma_cmp_cursor_eq(*q1, *q2);
                if cmp_value(a, b) == 0 {
                    assert(*q1 == *q2);
                    assert(q1 == q2);
                }
            },
            _ => {},
        }
    }
}

pub proof fn lemma_cmp_values_eq(a: Seq<ValueView>, b: Seq<ValueView>)
    ensures
        (cmp_values(a, b) == 0) <==> (a == b),
    decreases a,
{
    if a.len() == 0 && b.len() == 0 {
        assert(a =~= b);
    } else if a.len() > 0 && b.len() > 0 {
        lemma_cmp_value_eq(a[0], b[0]);
        lemma_cmp_values_eq(a.drop_first(), b.drop_first());
        if cmp_values(a, b) == 0 {
            assert(a =~= seq![a[0]] + a.drop_first());
            assert(b =~= seq![b[0]] + b.drop_first());
        }
        if a == b {
            assert(a.drop_first() =~= b.drop_first());
        }
    } else {
        assert(a.len() != b.len());
    }
}

pub proof fn lemma_cmp_value_pairs_eq(a: Seq<(ValueView, int)>, b: Seq<(ValueView, int)>)
    ensures
        (cmp_value_pairs(a, b) == 0) <==> (a == b),
    decreases a,
{
    if a.len() == 0 && b.len() == 0 {
        assert(a =~= b);
    } else if a.len() > 0 && b.len() > 0 {
        lemma_cmp_value_eq(a[0].0, b[0].0);
        lemma_cmp_value_pairs_eq(a.drop_first(), b.drop_first());
        if cmp_value_pairs(a, b) == 0 {
            assert(a[0].0 == b[0].0 && a[0].1 == b[0].1);
            assert(a[0] == b[0]);
            assert(a =~= seq![a[0]] + a.drop_first());
            assert(b =~= seq![b[0]] + b.drop_first());
        }
        if a == b {
            assert(a.drop_first() =~= b.drop_first());
        }
    } else {
        assert(a.len() != b.len());
    }
}

/// Transitivity for values, value sequences and pair sequences.
pub proof fn lemma_cmp_value_trans(a: ValueView, b: ValueView, c: ValueView)
    requires
        cmp_value(a, b) <= 0,
        cmp_value(b, c) <= 0,
    ensures
        cmp_value(a, c) <= 0,
        cmp_value(a, b) < 0 || cmp_value(b, c) < 0 ==> cmp_value(a, c) < 0,
    decreases a,
{
    lemma_cmp_value_eq(a, b);
    lemma_cmp_value_eq(b, c);
    lemma_cmp_value_eq(a, c);
    if cmp_value(a, b) == 0 || cmp_value(b, c) == 0 {
    } else if value_rank(a) == value_rank(b) && value_rank(b) == value_rank(c) {
        match (a, b, c) {
            (
                ValueView::List { items: i1 },
                ValueView::List { items: i2 },
                ValueView::List { items: i3 },
            ) => {
                lemma_cmp_values_trans(i1, i2, i3);
            },
            (
                ValueView::Mset { pairs: p1 },
                ValueView::Mset { pairs: p2 },
                ValueView::Mset { pairs: p3 },
            ) => {
                lemma_cmp_value_pairs_trans(p1, p2, p3);
            },
            (
                ValueView::Quote { pos: q1 },
                ValueView::Quote { pos: q2 },
                ValueView::Quote { pos: q3 },
            ) => {
                lemma_cmp_cursor_trans(*q1, *q2, *q3);
            },
            _ => {},
        }
    }
}

pub proof fn lemma_cmp_values_trans(a: Seq<ValueView>, b: Seq<ValueView>, c: Seq<ValueView>)
    requires
        cmp_values(a, b) <= 0,
        cmp_values(b, c) <= 0,
    ensures
        cmp_values(a, c) <= 0,
        cmp_values(a, b) < 0 || cmp_values(b, c) < 0 ==> cmp_values(a, c) < 0,
    decreases a,
{
    lemma_cmp_values_eq(a, b);
    lemma_cmp_values_eq(b, c);
    lemma_cmp_values_eq(a, c);
    if cmp_values(a, b) == 0 || cmp_values(b, c) == 0 {
    } else if a.len() == 0 {
        assert(b.len() > 0);
        assert(c.len() > 0);
    } else {
        assert(b.len() > 0 && c.len() > 0);
        lemma_cmp_value_eq(a[0], b[0]);
        lemma_cmp_value_eq(b[0], c[0]);
        lemma_cmp_value_eq(a[0], c[0]);
        if cmp_value(a[0], b[0]) == 0 && cmp_value(b[0], c[0]) == 0 {
            lemma_cmp_values_trans(a.drop_first(), b.drop_first(), c.drop_first());
        } else {
            lemma_cmp_value_trans(a[0], b[0], c[0]);
        }
    }
}

pub proof fn lemma_cmp_value_pairs_trans(
    a: Seq<(ValueView, int)>,
    b: Seq<(ValueView, int)>,
    c: Seq<(ValueView, int)>,
)
    requires
        cmp_value_pairs(a, b) <= 0,
        cmp_value_pairs(b, c) <= 0,
    ensures
        cmp_value_pairs(a, c) <= 0,
        cmp_value_pairs(a, b) < 0 || cmp_value_pairs(b, c) < 0 ==> cmp_value_pairs(a, c) < 0,
    decreases a,
{
    lemma_cmp_value_pairs_eq(a, b);
    lemma_cmp_value_pairs_eq(b, c);
    lemma_cmp_value_pairs_eq(a, c);
    if cmp_value_pairs(a, b) == 0 || cmp_value_pairs(b, c) == 0 {
    } else if a.len() == 0 {
        assert(b.len() > 0);
        assert(c.len() > 0);
    } else {
        assert(b.len() > 0 && c.len() > 0);
        lemma_cmp_value_eq(a[0].0, b[0].0);
        lemma_cmp_value_eq(b[0].0, c[0].0);
        lemma_cmp_value_eq(a[0].0, c[0].0);
        let p12 = cmp_then(cmp_value(a[0].0, b[0].0), cmp_int(a[0].1, b[0].1));
        let p23 = cmp_then(cmp_value(b[0].0, c[0].0), cmp_int(b[0].1, c[0].1));
        if p12 == 0 && p23 == 0 {
            lemma_cmp_value_pairs_trans(a.drop_first(), b.drop_first(), c.drop_first());
        } else {
            if cmp_value(a[0].0, b[0].0) == 0 && cmp_value(b[0].0, c[0].0) == 0 {
            } else {
                lemma_cmp_value_trans(a[0].0, b[0].0, c[0].0);
            }
        }
    }
}

} // verus!

verus! {

/// Whether a three-way result reflects a comparison outcome.
pub open spec fn cmp_matches(r: Cmp, c: int) -> bool {
    &&& (r == Cmp::Lt) <==> c < 0
    &&& (r == Cmp::Gt) <==> c > 0
    &&& (r == Cmp::Eq) <==> c == 0
}

/// Compare two machine integers.
pub fn cmp_i64_exec(a: i64, b: i64) -> (r: Cmp)
    ensures
        cmp_matches(r, cmp_int(a as int, b as int)),
{
    if a < b {
        Cmp::Lt
    } else if a > b {
        Cmp::Gt
    } else {
        Cmp::Eq
    }
}

/// Compare two sizes.
pub fn cmp_usize_exec(a: usize, b: usize) -> (r: Cmp)
    ensures
        cmp_matches(r, cmp_int(a as int, b as int)),
{
    if a < b {
        Cmp::Lt
    } else if a > b {
        Cmp::Gt
    } else {
        Cmp::Eq
    }
}

/// Compare two characters by code.
pub fn cmp_char_exec(a: char, b: char) -> (r: Cmp)
    ensures
        cmp_matches(r, cmp_char(a, b)),
{
    let x = a as u32;
    let y = b as u32;
    if x < y {
        Cmp::Lt
    } else if x > y {
        Cmp::Gt
    } else {
        Cmp::Eq
    }
}

/// Compare two character vectors lexicographically.
pub fn cmp_chars_exec(a: &Vec<char>, b: &Vec<char>) -> (r: Cmp)
    ensures
        cmp_matches(r, cmp_chars(a@, b@)),
{
    let an = a.len();
    let bn = b.len();
    let mut i: usize = 0;
    proof {
        assert(a@.skip(0) =~= a@);
        assert(b@.skip(0) =~= b@);
    }
    while i < an && i < bn
        invariant
            an == a@.len(),
            bn == b@.len(),
            i <= an,
            i <= bn,
            cmp_chars(a@, b@) == cmp_chars(a@.skip(i as int), b@.skip(i as int)),
        decreases an - i,
    {
        let c = cmp_char_exec(a[i], b[i]);
        proof {
            assert(a@.skip(i as int)[0] == a@[i as int]);
            assert(b@.skip(i as int)[0] == b@[i as int]);
            assert(a@.skip(i as int).drop_first() =~= a@.skip(i + 1));
            assert(b@.skip(i as int).drop_first() =~= b@.skip(i + 1));
        }
        match c {
            Cmp::Eq => {
                i += 1;
            },
            _ => {
                return c;
            },
        }
    }
    proof {
        if i == an && i == bn {
            assert(a@.skip(i as int).len() == 0 && b@.skip(i as int).len() == 0);
        } else if i == an {
            assert(a@.skip(i as int).len() == 0 && b@.skip(i as int).len() > 0);
        } else {
            assert(b@.skip(i as int).len() == 0 && a@.skip(i as int).len() > 0);
        }
    }
    if an == bn {
        Cmp::Eq
    } else if an < bn {
        Cmp::Lt
    } else {
        Cmp::Gt
    }
}

/// The rank of an expression's variant.
fn expr_rank_exec(e: &Expr) -> (r: u8)
    ensures
        r as int == expr_rank(expr_view(*e)),
{
    match e {
        Expr::Ident(_) => 0,
        Expr::StrLit(_) => 1,
        Expr::NumLit(_) => 2,
        Expr::Quote(_) => 3,
    }
}

/// Compare two expressions.
pub fn cmp_expr_exec(a: &Expr, b: &Expr) -> (r: Cmp)
    ensures
        cmp_matches(r, cmp_expr(expr_view(*a), expr_view(*b))),
    decreases *a,
{
    let ra = expr_rank_exec(a);
    let rb = expr_rank_exec(b);
    if ra != rb {
        if ra < rb {
            Cmp::Lt
        } else {
            Cmp::Gt
        }
    } else {
        match (a, b) {
            (Expr::Ident(t1), Expr::Ident(t2)) => cmp_chars_exec(t1, t2),
            (Expr::StrLit(t1), Expr::StrLit(t2)) => cmp_chars_exec(t1, t2),
            (Expr::NumLit(n1), Expr::NumLit(n2)) => cmp_i64_exec(*n1, *n2),
            (Expr::Quote(b1), Expr::Quote(b2)) => cmp_exprs_exec(b1, b2),
            _ => {
                proof {
                    assert(false);
                }
                Cmp::Eq
            },
        }
    }
}

/// Compare two programs lexicographically.
pub fn cmp_exprs_exec(a: &Vec<Expr>, b: &Vec<Expr>) -> (r: Cmp)
    ensures
        cmp_matches(r, cmp_exprs(prog_view(a@), prog_view(b@))),
    decreases *a,
{
    let ghost av: Seq<ExprView> = prog_view(a@);
    let ghost bv: Seq<ExprView> = prog_view(b@);
    proof {
        lemma_prog_view(a@);
        lemma_prog_view(b@);
        assert(av.skip(0) =~= av);
        assert(bv.skip(0) =~= bv);
    }
    let an = a.len();
    let bn = b.len();
    let mut i: usize = 0;
    while i < an && i < bn
        invariant
            an == a@.len(),
            bn == b@.len(),
            av == prog_view(a@),
            bv == prog_view(b@),
            av.len() == an,
            bv.len() == bn,
            forall|j: int| 0 <= j < an ==> av[j] == expr_view(a@[j]),
            forall|j: int| 0 <= j < bn ==> bv[j] == expr_view(b@[j]),
            i <= an,
            i <= bn,
            cmp_exprs(av, bv) == cmp_exprs(av.skip(i as int), bv.skip(i as int)),
        decreases an - i,
    {
        let c = cmp_expr_exec(&a[i], &b[i]);
        proof {
            assert(av.skip(i as int)[0] == av[i as int]);
            assert(bv.skip(i as int)[0] == bv[i as int]);
            assert(av.skip(i as int).drop_first() =~= av.skip(i + 1));
            assert(bv.skip(i as int).drop_first() =~= bv.skip(i + 1));
        }
        match c {
            Cmp::Eq => {
                i += 1;
            },
            _ => {
                return c;
            },
        }
    }
    proof {
        if i == an && i == bn {
            assert(av.skip(i as int).len() == 0 && bv.skip(i as int).len() == 0);
        } else if i == an {
            assert(av.skip(i as int).len() == 0 && bv.skip(i as int).len() > 0);
        } else {
            assert(bv.skip(i as int).len() == 0 && av.skip(i as int).len() > 0);
        }
    }
    if an == bn {
        Cmp::Eq
    } else if an < bn {
        Cmp::Lt
    } else {
        Cmp::Gt
    }
}

/// Compare two optional accumulators; nothing ranks below something.
fn cmp_opt_i64_exec(a: &Option<i64>, b: &Option<i64>) -> (r: Cmp)
    ensures
        cmp_matches(
            r,
            cmp_opt_int(
                match a {
                    Some(x) => Some(*x as int),
                    None => None,
                },
                match b {
                    Some(y) => Some(*y as int),
                    None => None,
                },
            ),
        ),
{
    match (a, b) {
        (Option::None, Option::None) => Cmp::Eq,
        (Option::None, Option::Some(_)) => Cmp::Lt,
        (Option::Some(_), Option::None) => Cmp::Gt,
        (Option::Some(x), Option::Some(y)) => cmp_i64_exec(*x, *y),
    }
}

/// The rank of a cursor's variant.
fn cursor_rank_exec(c: &Cursor) -> (r: u8)
    ensures
        r as int == cursor_rank(cursor_view(*c)),
{
    match c {
        Cursor::Edge(_, _) => 0,
        Cursor::Quote(_, _, _) => 1,
        Cursor::Ident(_, _, _, _) => 2,
        Cursor::StrLit(_, _, _, _) => 3,
        Cursor::NumLit(_, _, _) => 4,
    }
}

/// Compare two cursors.
pub fn cmp_cursor_exec(a: &Cursor, b: &Cursor) -> (r: Cmp)
    ensures
        cmp_matches(r, cmp_cursor(cursor_view(*a), cursor_view(*b))),
    decreases *a,
{
    let ra = cursor_rank_exec(a);
    let rb = cursor_rank_exec(b);
    if ra != rb {
        if ra < rb {
            Cmp::Lt
        } else {
            Cmp::Gt
        }
    } else {
        match (a, b) {
            (Cursor::Edge(h1, t1), Cursor::Edge(h2, t2)) => {
                let c = cmp_exprs_exec(h1, h2);
                match c {
                    Cmp::Eq => cmp_exprs_exec(t1, t2),
                    _ => c,
                }
            },
            (Cursor::Quote(h1, i1, t1), Cursor::Quote(h2, i2, t2)) => {
                let c = cmp_exprs_exec(h1, h2);
                match c {
                    Cmp::Eq => {
                        let c2 = cmp_cursor_exec(i1, i2);
                        match c2 {
                            Cmp::Eq => cmp_exprs_exec(t1, t2),
                            _ => c2,
                        }
                    },
                    _ => c,
                }
            },
            (Cursor::Ident(h1, c1, x1, t1), Cursor::Ident(h2, c2, x2, t2)) => {
                let r1 = cmp_exprs_exec(h1, h2);
                match r1 {
                    Cmp::Eq => {
                        let r2 = cmp_usize_exec(*c1, *c2);
                        match r2 {
                            Cmp::Eq => {
                                let r3 = cmp_chars_exec(x1, x2);
                                match r3 {
                                    Cmp::Eq => cmp_exprs_exec(t1, t2),
                                    _ => r3,
                                }
                            },
                            _ => r2,
                        }
                    },
                    _ => r1,
                }
            },
            (Cursor::StrLit(h1, c1, x1, t1), Cursor::StrLit(h2, c2, x2, t2)) => {
                let r1 = cmp_exprs_exec(h1, h2);
                match r1 {
                    Cmp::Eq => {
                        let r2 = cmp_usize_exec(*c1, *c2);
                        match r2 {
                            Cmp::Eq => {
                                let r3 = cmp_chars_exec(x1, x2);
                                match r3 {
                                    Cmp::Eq => cmp_exprs_exec(t1, t2),
                                    _ => r3,
                                }
                            },
                            _ => r2,
                        }
                    },
                    _ => r1,
                }
            },
            (Cursor::NumLit(h1, a1, t1), Cursor::NumLit(h2, a2, t2)) => {
                let r1 = cmp_exprs_exec(h1, h2);
                match r1 {
                    Cmp::Eq => {
                        let r2 = cmp_opt_i64_exec(a1, a2);
                        match r2 {
                            Cmp::Eq => cmp_exprs_exec(t1, t2),
                            _ => r2,
                        }
                    },
                    _ => r1,
                }
            },
            _ => {
                proof {
                    assert(false);
                }
                Cmp::Eq
            },
        }
    }
}

/// The rank of a value's variant.
fn value_rank_exec(v: &Value) -> (r: u8)
    ensures
        r as int == value_rank(value_view(*v)),
{
    match v {
        Value::Poison => 0,
        Value::Char(_) => 1,
        Value::Num(_) => 2,
        Value::List(_) => 3,
        Value::Mset(_) => 4,
        Value::Quote(_) => 5,
    }
}

/// Compare two values.
pub fn cmp_value_exec(a: &Value, b: &Value) -> (r: Cmp)
    ensures
        cmp_matches(r, cmp_value(value_view(*a), value_view(*b))),
    decreases *a,
{
    let ra = value_rank_exec(a);
    let rb = value_rank_exec(b);
    if ra != rb {
        if ra < rb {
            Cmp::Lt
        } else {
            Cmp::Gt
        }
    } else {
        match (a, b) {
            (Value::Poison, Value::Poison) => Cmp::Eq,
            (Value::Char(c1), Value::Char(c2)) => cmp_char_exec(*c1, *c2),
            (Value::Num(n1), Value::Num(n2)) => cmp_i64_exec(*n1, *n2),
            (Value::List(i1), Value::List(i2)) => cmp_values_exec(i1, i2),
            (Value::Mset(p1), Value::Mset(p2)) => cmp_value_pairs_exec(p1, p2),
            (Value::Quote(q1), Value::Quote(q2)) => cmp_cursor_exec(q1, q2),
            _ => {
                proof {
                    assert(false);
                }
                Cmp::Eq
            },
        }
    }
}

/// Compare two value vectors lexicographically.
pub fn cmp_values_exec(a: &Vec<Value>, b: &Vec<Value>) -> (r: Cmp)
    ensures
        cmp_matches(r, cmp_values(values_view(a@), values_view(b@))),
    decreases *a,
{
    let ghost av: Seq<ValueView> = values_view(a@);
    let ghost bv: Seq<ValueView> = values_view(b@);
    proof {
        lemma_values_view(a@);
        lemma_values_view(b@);
        assert(av.skip(0) =~= av);
        assert(bv.skip(0) =~= bv);
    }
    let an = a.len();
    let bn = b.len();
    let mut i: usize = 0;
    while i < an && i < bn
        invariant
            an == a@.len(),
            bn == b@.len(),
            av == values_view(a@),
            bv == values_view(b@),
            av.len() == an,
            bv.len() == bn,
            forall|j: int| 0 <= j < an ==> av[j] == value_view(a@[j]),
            forall|j: int| 0 <= j < bn ==> bv[j] == value_view(b@[j]),
            i <= an,
            i <= bn,
            cmp_values(av, bv) == cmp_values(av.skip(i as int), bv.skip(i as int)),
        decreases an - i,
    {
        let c = cmp_value_exec(&a[i], &b[i]);
        proof {
            assert(av.skip(i as int)[0] == av[i as int]);
            assert(bv.skip(i as int)[0] == bv[i as int]);
            assert(av.skip(i as int).drop_first() =~= av.skip(i + 1));
            assert(bv.skip(i as int).drop_first() =~= bv.skip(i + 1));
        }
        match c {
            Cmp::Eq => {
                i += 1;
            },
            _ => {
                return c;
            },
        }
    }
    proof {
        if i == an && i == bn {
            assert(av.skip(i as int).len() == 0 && bv.skip(i as int).len() == 0);
        } else if i == an {
            assert(av.skip(i as int).len() == 0 && bv.skip(i as int).len() > 0);
        } else {
            assert(bv.skip(i as int).len() == 0 && av.skip(i as int).len() > 0);
        }
    }
    if an == bn {
        Cmp::Eq
    } else if an < bn {
        Cmp::Lt
    } else {
        Cmp::Gt
    }
}

/// Compare two (value, multiplicity) pair vectors lexicographically.
pub fn cmp_value_pairs_exec(a: &Vec<(Value, i64)>, b: &Vec<(Value, i64)>) -> (r: Cmp)
    ensures
        cmp_matches(r, cmp_value_pairs(value_pairs_view(a@), value_pairs_view(b@))),
    decreases *a,
{
    let ghost av: Seq<(ValueView, int)> = value_pairs_view(a@);
    let ghost bv: Seq<(ValueView, int)> = value_pairs_view(b@);
    proof {
        lemma_value_pairs_view(a@);
        lemma_value_pairs_view(b@);
        assert(av.skip(0) =~= av);
        assert(bv.skip(0) =~= bv);
    }
    let an = a.len();
    let bn = b.len();
    let mut i: usize = 0;
    while i < an && i < bn
        invariant
            an == a@.len(),
            bn == b@.len(),
            av == value_pairs_view(a@),
            bv == value_pairs_view(b@),
            av.len() == an,
            bv.len() == bn,
            forall|j: int| 0 <= j < an ==> av[j] == (value_view(a@[j].0), a@[j].1 as int),
            forall|j: int| 0 <= j < bn ==> bv[j] == (value_view(b@[j].0), b@[j].1 as int),
            i <= an,
            i <= bn,
            cmp_value_pairs(av, bv) == cmp_value_pairs(av.skip(i as int), bv.skip(i as int)),
        decreases an - i,
    {
        let c0 = cmp_value_exec(&a[i].0, &b[i].0);
        let c = match c0 {
            Cmp::Eq => cmp_i64_exec(a[i].1, b[i].1),
            _ => c0,
        };
        proof {
            assert(av.skip(i as int)[0] == av[i as int]);
            assert(bv.skip(i as int)[0] == bv[i as int]);
            assert(av.skip(i as int).drop_first() =~= av.skip(i + 1));
            assert(bv.skip(i as int).drop_first() =~= bv.skip(i + 1));
        }
        match c {
            Cmp::Eq => {
                i += 1;
            },
            _ => {
                return c;
            },
        }
    }
    proof {
        if i == an && i == bn {
            assert(av.skip(i as int).len() == 0 && bv.skip(i as int).len() == 0);
        } else if i == an {
            assert(av.skip(i as int).len() == 0 && bv.skip(i as int).len() > 0);
        } else {
            assert(bv.skip(i as int).len() == 0 && av.skip(i as int).len() > 0);
        }
    }
    if an == bn {
        Cmp::Eq
    } else if an < bn {
        Cmp::Lt
    } else {
        Cmp::Gt
    }
}

impl StrictOrder for Value {
    /// One value comes before another when it compares below it.
    open spec fn before(a: ValueView, b: ValueView) -> bool {
        cmp_value(a, b) < 0
    }

    proof fn law_trichotomy(a: ValueView, b: ValueView) {
        lemma_cmp_value_eq(a, b);
        lemma_cmp_value_flip(a, b);
    }

    proof fn law_transitive(a: ValueView, b: ValueView, c: ValueView) {
        lemma_cmp_value_trans(a, b, c);
    }

    fn cmp_order(&self, other: &Value) -> (r: Cmp) {
        let r = cmp_value_exec(self, other);
        proof {
            lemma_cmp_value_eq(self@, other@);
            lemma_cmp_value_flip(self@, other@);
        }
        r
    }
}

} // verus!
