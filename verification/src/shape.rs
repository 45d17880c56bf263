//! The structural-type descriptor behind the introspection primitive:
//! a shape describes a value's form, and shapes of elements are unioned
//! into a covering shape for display.

use vstd::prelude::*;
use crate::value::{Value, ValueView, value_view, values_view, lemma_values_view, str_view};

verus! {

/// A structural-type descriptor: nothing, anything, the scalar kinds,
/// fixed tuples, homogeneous arrays, lists, multisets and quotes.
#[derive(Debug)]
pub enum Shape {
    Void,
    Any,
    Char,
    Num,
    Tuple(Vec<Shape>),
    Array(Box<Shape>, usize),
    List(Box<Shape>),
    SetOf(Box<Shape>),
    Quote,
}

/// The mathematical model of a shape.
#[verifier::ext_equal]
pub enum ShapeModel {
    Void,
    Any,
    Char,
    Num,
    Tuple { elems: Seq<ShapeModel> },
    Array { elem: Box<ShapeModel>, dim: int },
    List { elem: Box<ShapeModel> },
    SetOf { elem: Box<ShapeModel> },
    Quote,
}

/// The model of one shape.
pub open spec fn shape_model(s: Shape) -> ShapeModel
    decreases s,
{
    match s {
        Shape::Void => ShapeModel::Void,
        Shape::Any => ShapeModel::Any,
        Shape::Char => ShapeModel::Char,
        Shape::Num => ShapeModel::Num,
        Shape::Tuple(elems) => ShapeModel::Tuple { elems: shapes_view(elems@) },
        Shape::Array(e, d) => ShapeModel::Array { elem: Box::new(shape_model(*e)), dim: d as int },
        Shape::List(e) => ShapeModel::List { elem: Box::new(shape_model(*e)) },
        Shape::SetOf(e) => ShapeModel::SetOf { elem: Box::new(shape_model(*e)) },
        Shape::Quote => ShapeModel::Quote,
    }
}

/// The models of a sequence of shapes, element by element.
pub open spec fn shapes_view(s: Seq<Shape>) -> Seq<ShapeModel>
    decreases s,
{
    if s.len() == 0 {
        Seq::empty()
    } else {
        shapes_view(s.subrange(0, s.len() - 1)).push(shape_model(s[s.len() - 1]))
    }
}

/// `shapes_view` maps the model over the sequence.
pub proof fn lemma_shapes_view(s: Seq<Shape>)
    ensures
        shapes_view(s).len() == s.len(),
        forall|i: int| 0 <= i < s.len() ==> shapes_view(s)[i] == shape_model(s[i]),
    decreases s,
{
    if s.len() > 0 {
        lemma_shapes_view(s.subrange(0, s.len() - 1));
    }
}

/// The saturating depth of a shape model, used to bound the union.
pub open spec fn sm_depth(m: ShapeModel) -> nat
    decreases m,
{
    match m {
        ShapeModel::Tuple { elems } => 1 + sm_depth_seq(elems),
        ShapeModel::Array { elem, .. } => 1 + sm_depth(*elem),
        ShapeModel::List { elem } => 1 + sm_depth(*elem),
        ShapeModel::SetOf { elem } => 1 + sm_depth(*elem),
        _ => 1,
    }
}

/// The largest depth among a sequence of shape models.
pub open spec fn sm_depth_seq(ms: Seq<ShapeModel>) -> nat
    decreases ms,
{
    if ms.len() == 0 {
        0
    } else {
        let first = sm_depth(ms[0]);
        let rest = sm_depth_seq(ms.drop_first());
        if first > rest {
            first
        } else {
            rest
        }
    }
}

/// The union of two shapes, bounded by a recursion budget.  The budget
/// set by `shape_union` always suffices; an exhausted budget falls back
/// to the covering shape.
pub open spec fn su(d: nat, a: ShapeModel, b: ShapeModel) -> ShapeModel
    decreases d, 1nat, 0nat,
{
    if d == 0 {
        ShapeModel::Any
    } else {
        let d1 = (d - 1) as nat;
        match (a, b) {
            (ShapeModel::Void, s2) => s2,
            (s1, ShapeModel::Void) => s1,
            (ShapeModel::Any, _) => ShapeModel::Any,
            (_, ShapeModel::Any) => ShapeModel::Any,
            (ShapeModel::Char, ShapeModel::Char) => ShapeModel::Char,
            (ShapeModel::Num, ShapeModel::Num) => ShapeModel::Num,
            (ShapeModel::Tuple { elems: s1s }, ShapeModel::Tuple { elems: s2s }) => {
                if s1s.len() == s2s.len() {
                    ShapeModel::Tuple { elems: su_zip(d, s1s, s2s) }
                } else {
                    su(d1, su_fold(d, ShapeModel::Void, s1s), su_fold(d, ShapeModel::Void, s2s))
                }
            },
            (ShapeModel::Tuple { elems: s1s }, ShapeModel::Array { elem: e2, dim }) => {
                if s1s.len() == dim {
                    ShapeModel::Array { elem: Box::new(su_fold(d, *e2, s1s)), dim }
                } else {
                    ShapeModel::List { elem: Box::new(su_fold(d, *e2, s1s)) }
                }
            },
            (ShapeModel::Tuple { elems: s1s }, ShapeModel::List { elem: e2 }) => {
                ShapeModel::List { elem: Box::new(su_fold(d, *e2, s1s)) }
            },
            (ShapeModel::Array { elem: e1, dim }, ShapeModel::Tuple { elems: s2s }) => {
                if s2s.len() == dim {
                    ShapeModel::Array { elem: Box::new(su_fold(d, *e1, s2s)), dim }
                } else {
                    ShapeModel::List { elem: Box::new(su_fold(d, *e1, s2s)) }
                }
            },
            (
                ShapeModel::Array { elem: e1, dim: d1a },
                ShapeModel::Array { elem: e2, dim: d2a },
            ) => {
                if d1a == d2a {
                    ShapeModel::Array { elem: Box::new(su(d1, *e1, *e2)), dim: d1a }
                } else {
                    ShapeModel::List { elem: Box::new(su(d1, *e1, *e2)) }
                }
            },
            (ShapeModel::Array { elem: e1, .. }, ShapeModel::List { elem: e2 }) => {
                ShapeModel::List { elem: Box::new(su(d1, *e1, *e2)) }
            },
            (ShapeModel::List { elem: e1 }, ShapeModel::Tuple { elems: s2s }) => {
                ShapeModel::List { elem: Box::new(su_fold(d, *e1, s2s)) }
            },
            (ShapeModel::List { elem: e1 }, ShapeModel::Array { elem: e2, .. }) => {
                ShapeModel::List { elem: Box::new(su(d1, *e1, *e2)) }
            },
            (ShapeModel::List { elem: e1 }, ShapeModel::List { elem: e2 }) => {
                ShapeModel::List { elem: Box::new(su(d1, *e1, *e2)) }
            },
            (ShapeModel::SetOf { elem: e1 }, ShapeModel::SetOf { elem: e2 }) => {
                ShapeModel::SetOf { elem: Box::new(su(d1, *e1, *e2)) }
            },
            _ => ShapeModel::Any,
        }
    }
}

/// Fold the union over a sequence of shapes, left to right.
pub open spec fn su_fold(d: nat, acc: ShapeModel, ms: Seq<ShapeModel>) -> ShapeModel
    decreases d, 0nat, ms.len(),
{
    if ms.len() == 0 {
        acc
    } else if d == 0 {
        ShapeModel::Any
    } else {
        su_fold(d, su((d - 1) as nat, acc, ms[0]), ms.drop_first())
    }
}

/// Union two equally long shape sequences pointwise.
pub open spec fn su_zip(d: nat, a: Seq<ShapeModel>, b: Seq<ShapeModel>) -> Seq<ShapeModel>
    decreases d, 0nat, a.len(),
{
    if a.len() == 0 || b.len() == 0 || d == 0 {
        Seq::empty()
    } else {
        seq![su((d - 1) as nat, a[0], b[0])] + su_zip(d, a.drop_first(), b.drop_first())
    }
}

/// The union of two shapes: the least covering description the shape
/// language offers, following the rules of `su` with an ample budget.
pub open spec fn shape_union(a: ShapeModel, b: ShapeModel) -> ShapeModel {
    if sm_depth(a) + sm_depth(b) + 1 <= usize::MAX {
        su(sm_depth(a) + sm_depth(b) + 1, a, b)
    } else {
        ShapeModel::Any
    }
}

/// The largest saturating depth among the elements of a tuple, from a
/// starting position.
fn depth_vec(elems: &Vec<Shape>, i: usize) -> (r: usize)
    requires
        i <= elems@.len(),
    ensures
        ({
            let full = sm_depth_seq(shapes_view(elems@).skip(i as int));
            r as nat == full || (r == usize::MAX && full >= usize::MAX)
        }),
    decreases *elems, elems@.len() - i,
{
    proof {
        lemma_shapes_view(elems@);
    }
    if i >= elems.len() {
        proof {
            assert(shapes_view(elems@).skip(i as int).len() == 0);
        }
        0
    } else {
        let first = elems[i].depth();
        let rest = depth_vec(elems, i + 1);
        proof {
            let ms = shapes_view(elems@);
            assert(ms.skip(i as int)[0] == ms[i as int]);
            assert(ms.skip(i as int).drop_first() =~= ms.skip(i + 1));
        }
        if first > rest {
            first
        } else {
            rest
        }
    }
}

impl Shape {
    /// The saturating depth of a shape.
    fn depth(&self) -> (r: usize)
        ensures
            r as nat == sm_depth(shape_model(*self)) || (r == usize::MAX && sm_depth(
                shape_model(*self),
            ) >= usize::MAX),
        decreases *self,
    {
        match self {
            Shape::Tuple(elems) => {
                let dd = depth_vec(elems, 0);
                proof {
                    lemma_shapes_view(elems@);
                    assert(shapes_view(elems@).skip(0) =~= shapes_view(elems@));
                }
                if dd < usize::MAX {
                    dd + 1
                } else {
                    usize::MAX
                }
            },
            Shape::Array(e, _) => {
                let dd = e.depth();
                if dd < usize::MAX {
                    dd + 1
                } else {
                    usize::MAX
                }
            },
            Shape::List(e) => {
                let dd = e.depth();
                if dd < usize::MAX {
                    dd + 1
                } else {
                    usize::MAX
                }
            },
            Shape::SetOf(e) => {
                let dd = e.depth();
                if dd < usize::MAX {
                    dd + 1
                } else {
                    usize::MAX
                }
            },
            _ => 1,
        }
    }

    /// The union of this shape with another, by the bounded rules.
    pub fn union(self, that: Shape) -> (r: Shape)
        ensures
            shape_model(r) == shape_union(shape_model(self), shape_model(that)),
    {
        let da = self.depth();
        let db = that.depth();
        if da <= usize::MAX - 1 && db <= usize::MAX - 1 - da {
            let budget = da + db + 1;
            union_b(self, that, budget)
        } else {
            proof {
                assert(!(sm_depth(shape_model(self)) + sm_depth(shape_model(that)) + 1
                    <= usize::MAX));
            }
            Shape::Any
        }
    }
}

/// The union of two shapes under an explicit budget.
fn union_b(a: Shape, b: Shape, d: usize) -> (r: Shape)
    ensures
        shape_model(r) == su(d as nat, shape_model(a), shape_model(b)),
    decreases d, 1nat,
{
    let ghost am: ShapeModel = shape_model(a);
    let ghost bm: ShapeModel = shape_model(b);
    if d == 0 {
        return Shape::Any;
    }
    match (a, b) {
        (Shape::Void, s2) => s2,
        (s1, Shape::Void) => s1,
        (Shape::Any, _) => Shape::Any,
        (_, Shape::Any) => Shape::Any,
        (Shape::Char, Shape::Char) => Shape::Char,
        (Shape::Num, Shape::Num) => Shape::Num,
        (Shape::Tuple(s1s), Shape::Tuple(s2s)) => {
            let ghost v1: Seq<ShapeModel> = shapes_view(s1s@);
            let ghost v2: Seq<ShapeModel> = shapes_view(s2s@);
            proof {
                lemma_shapes_view(s1s@);
                lemma_shapes_view(s2s@);
            }
            if s1s.len() == s2s.len() {
                let zipped = union_zip(s1s, s2s, d);
                let r = Shape::Tuple(zipped);
                proof {
                    assert(shape_model(r) == (ShapeModel::Tuple {
                        elems: su_zip(d as nat, v1, v2),
                    }));
                }
                r
            } else {
                let f1 = union_fold(Shape::Void, s1s, d);
                let f2 = union_fold(Shape::Void, s2s, d);
                union_b(f1, f2, d - 1)
            }
        },
        (Shape::Tuple(s1s), Shape::Array(e2, dim)) => {
            proof {
                lemma_shapes_view(s1s@);
            }
            let same = s1s.len() == dim;
            let folded = union_fold(*e2, s1s, d);
            if same {
                Shape::Array(Box::new(folded), dim)
            } else {
                Shape::List(Box::new(folded))
            }
        },
        (Shape::Tuple(s1s), Shape::List(e2)) => {
            proof {
                lemma_shapes_view(s1s@);
            }
            Shape::List(Box::new(union_fold(*e2, s1s, d)))
        },
        (Shape::Array(e1, dim), Shape::Tuple(s2s)) => {
            proof {
                lemma_shapes_view(s2s@);
            }
            let same = s2s.len() == dim;
            let folded = union_fold(*e1, s2s, d);
            if same {
                Shape::Array(Box::new(folded), dim)
            } else {
                Shape::List(Box::new(folded))
            }
        },
        (Shape::Array(e1, d1a), Shape::Array(e2, d2a)) => {
            let u = union_b(*e1, *e2, d - 1);
            if d1a == d2a {
                Shape::Array(Box::new(u), d1a)
            } else {
                Shape::List(Box::new(u))
            }
        },
        (Shape::Array(e1, _), Shape::List(e2)) => Shape::List(Box::new(union_b(*e1, *e2, d - 1))),
        (Shape::List(e1), Shape::Tuple(s2s)) => {
            proof {
                lemma_shapes_view(s2s@);
            }
            Shape::List(Box::new(union_fold(*e1, s2s, d)))
        },
        (Shape::List(e1), Shape::Array(e2, _)) => Shape::List(Box::new(union_b(*e1, *e2, d - 1))),
        (Shape::List(e1), Shape::List(e2)) => Shape::List(Box::new(union_b(*e1, *e2, d - 1))),
        (Shape::SetOf(e1), Shape::SetOf(e2)) => Shape::SetOf(Box::new(union_b(*e1, *e2, d - 1))),
        _ => Shape::Any,
    }
}

/// Fold the union over the elements of a consumed tuple.
fn union_fold(acc: Shape, elems: Vec<Shape>, d: usize) -> (r: Shape)
    requires
        d >= 1,
    ensures
        shape_model(r) == su_fold(d as nat, shape_model(acc), shapes_view(elems@)),
    decreases d, 0nat,
{
    proof {
        lemma_shapes_view(elems@);
    }
    let ghost ms: Seq<ShapeModel> = shapes_view(elems@);
    let ghost acc0: ShapeModel = shape_model(acc);
    let mut acc = acc;
    let n = elems.len();
    let mut elems = elems;
    let mut i: usize = 0;
    proof {
        assert(ms.skip(0) =~= ms);
    }
    while i < n
        invariant
            d >= 1,
            n == ms.len(),
            elems@.len() == n - i,
            forall|j: int| 0 <= j < n - i ==> shape_model(#[trigger] elems@[j]) == ms[i + j],
            i <= n,
            su_fold(d as nat, acc0, ms) == su_fold(d as nat, shape_model(acc), ms.skip(i as int)),
        decreases n - i,
    {
        let ghost accm: ShapeModel = shape_model(acc);
        let x = elems.remove(0);
        proof {
            assert(shape_model(x) == ms[i as int]);
            assert(ms.skip(i as int)[0] == ms[i as int]);
            assert(ms.skip(i as int).drop_first() =~= ms.skip(i + 1));
        }
        let acc2 = union_b(acc, x, d - 1);
        acc = acc2;
        i += 1;
    }
    proof {
        assert(ms.skip(n as int).len() == 0);
    }
    acc
}

/// Union two equally long tuples pointwise.
fn union_zip(a: Vec<Shape>, b: Vec<Shape>, d: usize) -> (r: Vec<Shape>)
    requires
        d >= 1,
        a@.len() == b@.len(),
    ensures
        shapes_view(r@) == su_zip(d as nat, shapes_view(a@), shapes_view(b@)),
    decreases d, 0nat,
{
    proof {
        lemma_shapes_view(a@);
        lemma_shapes_view(b@);
    }
    let ghost av: Seq<ShapeModel> = shapes_view(a@);
    let ghost bv: Seq<ShapeModel> = shapes_view(b@);
    let mut a = a;
    let mut b = b;
    let n = a.len();
    let mut out: Vec<Shape> = Vec::new();
    let mut i: usize = 0;
    proof {
        assert(av.skip(0) =~= av);
        assert(bv.skip(0) =~= bv);
        assert(shapes_view(out@) =~= Seq::<ShapeModel>::empty());
    }
    while i < n
        invariant
            d >= 1,
            n == av.len(),
            n == bv.len(),
            a@.len() == n - i,
            b@.len() == n - i,
            forall|j: int| 0 <= j < n - i ==> shape_model(#[trigger] a@[j]) == av[i + j],
            forall|j: int| 0 <= j < n - i ==> shape_model(#[trigger] b@[j]) == bv[i + j],
            i <= n,
            su_zip(d as nat, av, bv) == shapes_view(out@) + su_zip(
                d as nat,
                av.skip(i as int),
                bv.skip(i as int),
            ),
        decreases n - i,
    {
        proof {
            assert(av.skip(i as int)[0] == av[i as int]);
            assert(bv.skip(i as int)[0] == bv[i as int]);
            assert(av.skip(i as int).drop_first() =~= av.skip(i + 1));
            assert(bv.skip(i as int).drop_first() =~= bv.skip(i + 1));
        }
        let x = a.remove(0);
        let y = b.remove(0);
        let u = union_b(x, y, d - 1);
        let ghost out0: Seq<Shape> = out@;
        let ghost um: ShapeModel = shape_model(u);
        out.push(u);
        proof {
            lemma_shapes_view(out0);
            lemma_shapes_view(out@);
            assert forall|j: int| 0 <= j < out0.len() + 1 implies shapes_view(out@)[j]
                == shapes_view(out0).push(um)[j] by {
                if j < out0.len() {
                    assert(out@[j] == out0[j]);
                } else {
                    assert(shape_model(out@[j]) == um);
                }
            }
            assert(shapes_view(out@) =~= shapes_view(out0).push(um));
            assert((shapes_view(out0) + (seq![um] + su_zip(d as nat, av.skip(i + 1), bv.skip(i + 1))))
                =~= shapes_view(out@) + su_zip(d as nat, av.skip(i + 1), bv.skip(i + 1)));
        }
        i += 1;
    }
    proof {
        assert(av.skip(n as int).len() == 0);
        assert(su_zip(d as nat, av.skip(n as int), bv.skip(n as int)) =~= Seq::<ShapeModel>::empty());
        assert(shapes_view(out@) + Seq::<ShapeModel>::empty() =~= shapes_view(out@));
    }
    out
}

} // verus!

verus! {

/// Whether a shape describes a string: an array or list of characters.
pub open spec fn is_string_m(m: ShapeModel) -> bool {
    match m {
        ShapeModel::Array { elem, .. } => *elem == ShapeModel::Char,
        ShapeModel::List { elem } => *elem == ShapeModel::Char,
        _ => false,
    }
}

/// Whether a shape is exactly the character shape.
fn is_char_shape(s: &Shape) -> (r: bool)
    ensures
        r == (shape_model(*s) == ShapeModel::Char),
{
    match s {
        Shape::Char => true,
        Shape::Void => false,
        Shape::Any => false,
        Shape::Num => false,
        Shape::Tuple(_) => false,
        Shape::Array(_, _) => false,
        Shape::List(_) => false,
        Shape::SetOf(_) => false,
        Shape::Quote => false,
    }
}

impl Shape {
    /// Whether this shape describes a string.
    pub fn is_string(&self) -> (r: bool)
        ensures
            r == is_string_m(shape_model(*self)),
    {
        match self {
            Shape::Array(e, _) => is_char_shape(e),
            Shape::List(e) => is_char_shape(e),
            _ => false,
        }
    }
}

/// The textual descriptions of a sequence of shapes.
pub open spec fn reprs_of(ms: Seq<ShapeModel>) -> Seq<ValueView>
    decreases ms, 0nat,
{
    if ms.len() == 0 {
        Seq::empty()
    } else {
        seq![repr_v(ms[0])] + reprs_of(ms.drop_first())
    }
}

/// The textual description of a shape, as a runtime value: strings for
/// the scalar kinds, tagged lists for the composites.
pub open spec fn repr_v(m: ShapeModel) -> ValueView
    decreases m, 1nat,
{
    if is_string_m(m) {
        str_view("string"@)
    } else {
        match m {
            ShapeModel::Void => str_view("void"@),
            ShapeModel::Any => str_view("any"@),
            ShapeModel::Char => str_view("char"@),
            ShapeModel::Num => str_view("num"@),
            ShapeModel::Tuple { elems } => crate::value::list_of(
                seq![str_view("tuple"@)] + reprs_of(elems),
            ),
            ShapeModel::Array { elem, dim } => crate::value::list_of(
                seq![
                    str_view("array"@),
                    repr_v(*elem),
                    crate::eval::num_item(
                        if dim <= i64::MAX {
                            dim
                        } else {
                            i64::MAX as int
                        },
                    ),
                ],
            ),
            ShapeModel::List { elem } => crate::value::list_of(
                seq![str_view("list"@), repr_v(*elem)],
            ),
            ShapeModel::SetOf { elem } => crate::value::list_of(
                seq![str_view("set"@), repr_v(*elem)],
            ),
            ShapeModel::Quote => str_view("quote"@),
        }
    }
}

/// The descriptions of a tuple's element shapes, from a position on.
fn reprs_vec(elems: &Vec<Shape>, i: usize) -> (r: Vec<Value>)
    requires
        i <= elems@.len(),
    ensures
        values_view(r@) == reprs_of(shapes_view(elems@).skip(i as int)),
    decreases *elems, elems@.len() - i, 0nat,
{
    proof {
        lemma_shapes_view(elems@);
    }
    let ghost ms: Seq<ShapeModel> = shapes_view(elems@);
    if i >= elems.len() {
        let r: Vec<Value> = Vec::new();
        proof {
            lemma_values_view(r@);
            assert(values_view(r@) =~= reprs_of(ms.skip(i as int)));
        }
        r
    } else {
        let first = elems[i].repr();
        let ghost fv: ValueView = value_view(first);
        let mut rest = reprs_vec(elems, i + 1);
        let ghost r0: Seq<Value> = rest@;
        let mut out: Vec<Value> = Vec::new();
        crate::eval::push_value(&mut out, first);
        let ghost p1: Seq<Value> = out@;
        out.append(&mut rest);
        proof {
            lemma_values_view(p1);
            assert(out@ == p1 + r0);
            assert(p1.len() == 1);
            lemma_values_view(r0);
            lemma_values_view(out@);
            assert(ms.skip(i as int)[0] == ms[i as int]);
            assert(ms.skip(i as int).drop_first() =~= ms.skip(i + 1));
            assert forall|j: int| 0 <= j < out@.len() implies values_view(out@)[j] == (seq![fv]
                + reprs_of(ms.skip(i + 1)))[j] by {
                if j > 0 {
                    assert(out@[j] == r0[j - 1]);
                    assert(values_view(r0)[j - 1] == value_view(r0[j - 1]));
                }
            }
            assert(values_view(out@) =~= seq![fv] + reprs_of(ms.skip(i + 1)));
        }
        out
    }
}

impl Shape {
    /// Describe this shape as a runtime value, for display.
    pub fn repr(&self) -> (r: Value)
        ensures
            value_view(r) == repr_v(shape_model(*self)),
        decreases *self, 1nat,
    {
        if self.is_string() {
            return Value::new_str("string");
        }
        match self {
            Shape::Void => Value::new_str("void"),
            Shape::Any => Value::new_str("any"),
            Shape::Char => Value::new_str("char"),
            Shape::Num => Value::new_str("num"),
            Shape::Tuple(elems) => {
                let mut rest = reprs_vec(elems, 0);
                let ghost r0: Seq<Value> = rest@;
                let mut items: Vec<Value> = Vec::new();
                crate::eval::push_value(&mut items, Value::new_str("tuple"));
                let ghost p1: Seq<Value> = items@;
                items.append(&mut rest);
                proof {
                    lemma_values_view(p1);
                    lemma_shapes_view(elems@);
                    assert(shapes_view(elems@).skip(0) =~= shapes_view(elems@));
                    assert(items@ == p1 + r0);
                    assert(p1.len() == 1);
                    lemma_values_view(r0);
                    lemma_values_view(items@);
                    assert forall|j: int| 0 <= j < items@.len() implies values_view(items@)[j]
                        == (seq![str_view("tuple"@)] + reprs_of(shapes_view(elems@)))[j] by {
                        if j > 0 {
                            assert(items@[j] == r0[j - 1]);
                            assert(values_view(r0)[j - 1] == value_view(r0[j - 1]));
                        }
                    }
                    assert(values_view(items@) =~= seq![str_view("tuple"@)] + reprs_of(
                        shapes_view(elems@),
                    ));
                }
                Value::new_list(items)
            },
            Shape::Array(e, dim) => {
                let inner = e.repr();
                let d: i64 = if (*dim as u64) <= (i64::MAX as u64) {
                    *dim as i64
                } else {
                    i64::MAX
                };
                let mut items: Vec<Value> = Vec::new();
                items.push(Value::new_str("array"));
                items.push(inner);
                items.push(Value::new_i64(d));
                proof {
                    lemma_values_view(items@);
                    assert(values_view(items@) =~= repr_v(
                        shape_model(*self),
                    )->List_items);
                }
                Value::new_list(items)
            },
            Shape::List(e) => {
                let inner = e.repr();
                let mut items: Vec<Value> = Vec::new();
                items.push(Value::new_str("list"));
                items.push(inner);
                proof {
                    lemma_values_view(items@);
                    assert(values_view(items@) =~= repr_v(shape_model(*self))->List_items);
                }
                Value::new_list(items)
            },
            Shape::SetOf(e) => {
                let inner = e.repr();
                let mut items: Vec<Value> = Vec::new();
                items.push(Value::new_str("set"));
                items.push(inner);
                proof {
                    lemma_values_view(items@);
                    assert(values_view(items@) =~= repr_v(shape_model(*self))->List_items);
                }
                Value::new_list(items)
            },
            Shape::Quote => Value::new_str("quote"),
        }
    }
}

} // verus!

verus! {

/// The shapes of a sequence of values, element by element.
pub open spec fn vals_shapes(items: Seq<ValueView>) -> Seq<ShapeModel>
    decreases items, 0nat,
{
    if items.len() == 0 {
        Seq::empty()
    } else {
        seq![val_shape(items[0])] + vals_shapes(items.drop_first())
    }
}

/// The shapes of a pair sequence's distinct elements, element by element.
pub open spec fn pairs_shapes(pairs: Seq<(ValueView, int)>) -> Seq<ShapeModel>
    decreases pairs, 0nat,
{
    if pairs.len() == 0 {
        Seq::empty()
    } else {
        seq![val_shape(pairs[0].0)] + pairs_shapes(pairs.drop_first())
    }
}

/// Fold the union over shapes, left to right, from a starting shape.
pub open spec fn sfold(acc: ShapeModel, ms: Seq<ShapeModel>) -> ShapeModel
    decreases ms.len(),
{
    if ms.len() == 0 {
        acc
    } else {
        sfold(shape_union(acc, ms[0]), ms.drop_first())
    }
}

/// Whether any listed shape differs from a given one.
pub open spec fn any_differs(ms: Seq<ShapeModel>, from: ShapeModel) -> bool {
    exists|j: int| 0 <= j < ms.len() && ms[j] != from
}

/// The shape of a value: scalars by kind, lists as short mixed tuples or
/// homogeneous arrays, multisets by their covering element shape.
pub open spec fn val_shape(v: ValueView) -> ShapeModel
    decreases v, 1nat,
{
    match v {
        ValueView::Poison => ShapeModel::Any,
        ValueView::Char { .. } => ShapeModel::Char,
        ValueView::Num { .. } => ShapeModel::Num,
        ValueView::Quote { .. } => ShapeModel::Quote,
        ValueView::List { items } => {
            let ss = vals_shapes(items);
            let folded = sfold(ShapeModel::Void, ss);
            if items.len() <= 8 && any_differs(ss, folded) {
                ShapeModel::Tuple { elems: ss }
            } else {
                ShapeModel::Array { elem: Box::new(folded), dim: items.len() as int }
            }
        },
        ValueView::Mset { pairs } => ShapeModel::SetOf {
            elem: Box::new(sfold(ShapeModel::Void, pairs_shapes(pairs))),
        },
    }
}

/// Structural equality of two shapes.
pub fn shape_eq(a: &Shape, b: &Shape) -> (r: bool)
    ensures
        r == (shape_model(*a) == shape_model(*b)),
    decreases *a, 1nat,
{
    match (a, b) {
        (Shape::Void, Shape::Void) => true,
        (Shape::Any, Shape::Any) => true,
        (Shape::Char, Shape::Char) => true,
        (Shape::Num, Shape::Num) => true,
        (Shape::Quote, Shape::Quote) => true,
        (Shape::Tuple(x), Shape::Tuple(y)) => {
            let r = shapes_eq(x, y, 0);
            proof {
                lemma_shapes_view(x@);
                lemma_shapes_view(y@);
                assert(shapes_view(x@).skip(0) =~= shapes_view(x@));
                assert(shapes_view(y@).skip(0) =~= shapes_view(y@));
            }
            r
        },
        (Shape::Array(e1, d1), Shape::Array(e2, d2)) => *d1 == *d2 && shape_eq(e1, e2),
        (Shape::List(e1), Shape::List(e2)) => shape_eq(e1, e2),
        (Shape::SetOf(e1), Shape::SetOf(e2)) => shape_eq(e1, e2),
        _ => false,
    }
}

/// Elementwise equality of two shape vectors, from a position on.
fn shapes_eq(a: &Vec<Shape>, b: &Vec<Shape>, i: usize) -> (r: bool)
    requires
        i <= a@.len(),
        i <= b@.len(),
    ensures
        r == (shapes_view(a@).skip(i as int) == shapes_view(b@).skip(i as int)),
    decreases *a, 0nat, a@.len() - i,
{
    proof {
        lemma_shapes_view(a@);
        lemma_shapes_view(b@);
    }
    let ghost av: Seq<ShapeModel> = shapes_view(a@);
    let ghost bv: Seq<ShapeModel> = shapes_view(b@);
    if a.len() - i != b.len() - i {
        proof {
            assert(av.skip(i as int).len() != bv.skip(i as int).len());
        }
        return false;
    }
    if i >= a.len() {
        proof {
            assert(av.skip(i as int) =~= bv.skip(i as int));
        }
        return true;
    }
    let hd = shape_eq(&a[i], &b[i]);
    if !hd {
        proof {
            assert(av.skip(i as int)[0] != bv.skip(i as int)[0]);
        }
        return false;
    }
    let rest = shapes_eq(a, b, i + 1);
    proof {
        assert(av.skip(i as int)[0] == bv.skip(i as int)[0]);
        assert(av.skip(i as int).drop_first() =~= av.skip(i + 1));
        assert(bv.skip(i as int).drop_first() =~= bv.skip(i + 1));
        if rest {
            assert(av.skip(i as int) =~= seq![av.skip(i as int)[0]] + av.skip(i + 1));
            assert(bv.skip(i as int) =~= seq![bv.skip(i as int)[0]] + bv.skip(i + 1));
        } else {
            assert(av.skip(i as int) != bv.skip(i as int)) by {
                if av.skip(i as int) == bv.skip(i as int) {
                    assert(av.skip(i + 1) =~= av.skip(i as int).drop_first());
                    assert(av.skip(i + 1) == bv.skip(i + 1));
                }
            }
        }
    }
    rest
}

/// The shapes of the elements of a list, from a position on.
fn shapes_of_values(items: &Vec<Value>, i: usize) -> (r: Vec<Shape>)
    requires
        i <= items@.len(),
    ensures
        shapes_view(r@) == vals_shapes(values_view(items@).skip(i as int)),
    decreases *items, items@.len() - i, 0nat,
{
    proof {
        lemma_values_view(items@);
    }
    let ghost iv: Seq<ValueView> = values_view(items@);
    if i >= items.len() {
        let r: Vec<Shape> = Vec::new();
        proof {
            lemma_shapes_view(r@);
            assert(shapes_view(r@) =~= vals_shapes(iv.skip(i as int)));
        }
        r
    } else {
        let first = items[i].shape();
        let ghost fm: ShapeModel = shape_model(first);
        let mut rest = shapes_of_values(items, i + 1);
        let ghost r0: Seq<Shape> = rest@;
        let mut out: Vec<Shape> = Vec::new();
        out.push(first);
        let ghost p1: Seq<Shape> = out@;
        out.append(&mut rest);
        proof {
            assert(out@ == p1 + r0);
            lemma_shapes_view(p1);
            lemma_shapes_view(r0);
            lemma_shapes_view(out@);
            assert(iv.skip(i as int)[0] == iv[i as int]);
            assert(iv.skip(i as int).drop_first() =~= iv.skip(i + 1));
            assert forall|j: int| 0 <= j < out@.len() implies shapes_view(out@)[j] == (seq![fm]
                + vals_shapes(iv.skip(i + 1)))[j] by {
                if j > 0 {
                    assert(out@[j] == r0[j - 1]);
                    assert(shapes_view(r0)[j - 1] == shape_model(r0[j - 1]));
                }
            }
            assert(shapes_view(out@) =~= seq![fm] + vals_shapes(iv.skip(i + 1)));
        }
        out
    }
}

/// The shapes of a multiset's distinct elements, from a position on.
fn shapes_of_pairs(pairs: &Vec<(Value, i64)>, i: usize) -> (r: Vec<Shape>)
    requires
        i <= pairs@.len(),
    ensures
        shapes_view(r@) == pairs_shapes(
            crate::value::value_pairs_view(pairs@).skip(i as int),
        ),
    decreases *pairs, pairs@.len() - i, 0nat,
{
    proof {
        crate::value::lemma_value_pairs_view(pairs@);
    }
    let ghost pvs: Seq<(ValueView, int)> = crate::value::value_pairs_view(pairs@);
    if i >= pairs.len() {
        let r: Vec<Shape> = Vec::new();
        proof {
            lemma_shapes_view(r@);
            assert(shapes_view(r@) =~= pairs_shapes(pvs.skip(i as int)));
        }
        r
    } else {
        let first = pairs[i].0.shape();
        let ghost fm: ShapeModel = shape_model(first);
        let mut rest = shapes_of_pairs(pairs, i + 1);
        let ghost r0: Seq<Shape> = rest@;
        let mut out: Vec<Shape> = Vec::new();
        out.push(first);
        let ghost p1: Seq<Shape> = out@;
        out.append(&mut rest);
        proof {
            assert(out@ == p1 + r0);
            lemma_shapes_view(p1);
            lemma_shapes_view(r0);
            lemma_shapes_view(out@);
            assert(pvs.skip(i as int)[0] == pvs[i as int]);
            assert(pvs.skip(i as int).drop_first() =~= pvs.skip(i + 1));
            assert forall|j: int| 0 <= j < out@.len() implies shapes_view(out@)[j] == (seq![fm]
                + pairs_shapes(pvs.skip(i + 1)))[j] by {
                if j > 0 {
                    assert(out@[j] == r0[j - 1]);
                    assert(shapes_view(r0)[j - 1] == shape_model(r0[j - 1]));
                }
            }
            assert(shapes_view(out@) =~= seq![fm] + pairs_shapes(pvs.skip(i + 1)));
        }
        out
    }
}

/// Fold the union over a shape vector, from a position on.
fn fold_shapes(acc: Shape, shapes: &Vec<Shape>, i: usize) -> (r: Shape)
    requires
        i <= shapes@.len(),
    ensures
        shape_model(r) == sfold(shape_model(acc), shapes_view(shapes@).skip(i as int)),
    decreases shapes@.len() - i,
{
    proof {
        lemma_shapes_view(shapes@);
    }
    let ghost ms: Seq<ShapeModel> = shapes_view(shapes@);
    if i >= shapes.len() {
        proof {
            assert(ms.skip(i as int).len() == 0);
        }
        acc
    } else {
        let x = shapes[i].duplicate();
        let acc2 = acc.union(x);
        proof {
            assert(ms.skip(i as int)[0] == ms[i as int]);
            assert(ms.skip(i as int).drop_first() =~= ms.skip(i + 1));
        }
        fold_shapes(acc2, shapes, i + 1)
    }
}

/// Whether any listed shape differs from a given one, from a position on.
fn any_shape_differs(shapes: &Vec<Shape>, from: &Shape, i: usize) -> (r: bool)
    requires
        i <= shapes@.len(),
    ensures
        r == any_differs(shapes_view(shapes@).skip(i as int), shape_model(*from)),
    decreases shapes@.len() - i,
{
    proof {
        lemma_shapes_view(shapes@);
    }
    let ghost ms: Seq<ShapeModel> = shapes_view(shapes@);
    if i >= shapes.len() {
        proof {
            assert(ms.skip(i as int).len() == 0);
        }
        false
    } else {
        let same = shape_eq(&shapes[i], from);
        proof {
            assert(ms.skip(i as int)[0] == ms[i as int]);
            assert(ms.skip(i as int).drop_first() =~= ms.skip(i + 1));
        }
        if !same {
            proof {
                assert(ms.skip(i as int)[0] != shape_model(*from));
            }
            true
        } else {
            let rest = any_shape_differs(shapes, from, i + 1);
            proof {
                assert forall|j: int| 0 <= j < ms.skip(i as int).len() && ms.skip(i as int)[j]
                    != shape_model(*from) implies rest by {
                    if j > 0 {
                        assert(ms.skip(i + 1)[j - 1] == ms.skip(i as int)[j]);
                    }
                }
                if rest {
                    let j = choose|j: int| 0 <= j < ms.skip(i + 1).len() && #[trigger] ms.skip(
                        i + 1,
                    )[j] != shape_model(*from);
                    assert(ms.skip(i as int)[j + 1] == ms.skip(i + 1)[j]);
                }
            }
            rest
        }
    }
}

impl Shape {
    /// A structural copy of a shape.
    pub fn duplicate(&self) -> (r: Shape)
        ensures
            shape_model(r) == shape_model(*self),
        decreases *self, 1nat,
    {
        match self {
            Shape::Void => Shape::Void,
            Shape::Any => Shape::Any,
            Shape::Char => Shape::Char,
            Shape::Num => Shape::Num,
            Shape::Quote => Shape::Quote,
            Shape::Array(e, d) => Shape::Array(Box::new(e.duplicate()), *d),
            Shape::List(e) => Shape::List(Box::new(e.duplicate())),
            Shape::SetOf(e) => Shape::SetOf(Box::new(e.duplicate())),
            Shape::Tuple(elems) => {
                let r = Shape::Tuple(dup_shapes(elems, 0));
                proof {
                    lemma_shapes_view(elems@);
                    assert(shapes_view(elems@).skip(0) =~= shapes_view(elems@));
                    assert(shape_model(r) =~= shape_model(*self));
                }
                r
            },
        }
    }
}

/// Structural copies of a shape vector's elements, from a position on.
fn dup_shapes(elems: &Vec<Shape>, i: usize) -> (r: Vec<Shape>)
    requires
        i <= elems@.len(),
    ensures
        shapes_view(r@) == shapes_view(elems@).skip(i as int),
    decreases *elems, elems@.len() - i, 0nat,
{
    proof {
        lemma_shapes_view(elems@);
    }
    let ghost ms: Seq<ShapeModel> = shapes_view(elems@);
    if i >= elems.len() {
        let r: Vec<Shape> = Vec::new();
        proof {
            lemma_shapes_view(r@);
            assert(shapes_view(r@) =~= ms.skip(i as int));
        }
        r
    } else {
        let first = elems[i].duplicate();
        let ghost fm: ShapeModel = shape_model(first);
        let mut rest = dup_shapes(elems, i + 1);
        let ghost r0: Seq<Shape> = rest@;
        let mut out: Vec<Shape> = Vec::new();
        out.push(first);
        let ghost p1: Seq<Shape> = out@;
        out.append(&mut rest);
        proof {
            assert(out@ == p1 + r0);
            lemma_shapes_view(p1);
            lemma_shapes_view(r0);
            lemma_shapes_view(out@);
            assert forall|j: int| 0 <= j < out@.len() implies shapes_view(out@)[j] == ms.skip(
                i as int,
            )[j] by {
                if j > 0 {
                    assert(out@[j] == r0[j - 1]);
                    assert(shapes_view(r0)[j - 1] == shape_model(r0[j - 1]));
                }
            }
            assert(shapes_view(out@) =~= ms.skip(i as int));
        }
        out
    }
}

impl Value {
    /// The structural-type descriptor of this value.
    pub fn shape(&self) -> (r: Shape)
        ensures
            shape_model(r) == val_shape(value_view(*self)),
        decreases *self, 1nat,
    {
        match self {
            Value::Poison => Shape::Any,
            Value::Char(_) => Shape::Char,
            Value::Num(_) => Shape::Num,
            Value::Quote(_) => Shape::Quote,
            Value::List(items) => {
                proof {
                    lemma_values_view(items@);
                }
                let ghost iv: Seq<ValueView> = values_view(items@);
                let shapes = shapes_of_values(items, 0);
                proof {
                    assert(iv.skip(0) =~= iv);
                    lemma_shapes_view(shapes@);
                    assert(shapes_view(shapes@).skip(0) =~= shapes_view(shapes@));
                }
                let folded = fold_shapes(Shape::Void, &shapes, 0);
                if items.len() <= 8 && any_shape_differs(&shapes, &folded, 0) {
                    let r = Shape::Tuple(shapes);
                    assert(shape_model(r) =~= val_shape(value_view(*self)));
                    r
                } else {
                    let r = Shape::Array(Box::new(folded), items.len());
                    assert(shape_model(r) =~= val_shape(value_view(*self)));
                    r
                }
            },
            Value::Mset(pairs) => {
                proof {
                    crate::value::lemma_value_pairs_view(pairs@);
                }
                let ghost pvs: Seq<(ValueView, int)> = crate::value::value_pairs_view(pairs@);
                let shapes = shapes_of_pairs(pairs, 0);
                proof {
                    assert(pvs.skip(0) =~= pvs);
                    lemma_shapes_view(shapes@);
                    assert(shapes_view(shapes@).skip(0) =~= shapes_view(shapes@));
                }
                let folded = fold_shapes(Shape::Void, &shapes, 0);
                let r = Shape::SetOf(Box::new(folded));
                assert(shape_model(r) =~= val_shape(value_view(*self)));
                r
            },
        }
    }
}

} // verus!
