//! The structural-type descriptor and its display form.

use zipvm::syntax::Expr;
use zipvm::value::Value;
use zipvm::shape::Shape;
use zipvm::eval::{VM, Trace, FileStore};
use zipvm::editor::Cursor;
use zipvm::text::chars_of;

fn ident(s: &str) -> Expr {
    Expr::Ident(chars_of(s))
}

fn num(n: i64) -> Expr {
    Expr::NumLit(n)
}

fn run(prog: Vec<Expr>) -> VM {
    let mut vm = VM::new();
    let mut trace = Trace::new();
    let files = FileStore::new();
    let mut fuel: usize = 1_000_000;
    let ok = vm.eval_cursor(&mut trace, &files, Cursor::initial(prog), &mut fuel);
    assert!(ok);
    vm
}

fn repr_string(v: &Value) -> String {
    v.shape().repr().as_string().map(|cs| cs.into_iter().collect()).unwrap_or_default()
}

#[test]
fn scalar_shapes() {
    assert_eq!(repr_string(&Value::new_i64(3)), "num");
    assert_eq!(repr_string(&Value::new_char('x')), "char");
    assert_eq!(repr_string(&Value::new_poison()), "any");
    assert_eq!(repr_string(&Value::new_str("hi")), "string");
}

#[test]
fn homogeneous_lists_are_arrays() {
    let v = Value::new_list(vec![Value::new_i64(1), Value::new_i64(2)]);
    let s = v.shape();
    assert!(!s.is_string());
    let tag = s.repr().as_list().unwrap();
    let first: String = tag[0].as_string().unwrap().into_iter().collect();
    assert_eq!(first, "array");
    let dim = tag[2].as_i64().unwrap();
    assert_eq!(dim, 2);
}

#[test]
fn short_mixed_lists_are_tuples() {
    let v = Value::new_list(vec![Value::new_i64(1), Value::new_char('a')]);
    let tag = v.shape().repr().as_list().unwrap();
    let first: String = tag[0].as_string().unwrap().into_iter().collect();
    assert_eq!(first, "tuple");
    assert_eq!(tag.len(), 3);
}

#[test]
fn string_shape_union() {
    let a = Shape::List(Box::new(Shape::Char));
    let b = Shape::Array(Box::new(Shape::Char), 3);
    assert!(a.is_string());
    assert!(b.is_string());
    let u = a.union(b);
    assert!(u.is_string());
    let v = Shape::Num.union(Shape::Num);
    assert!(matches!(v, Shape::Num));
    let w = Shape::Void.union(Shape::Char);
    assert!(matches!(w, Shape::Char));
    let x = Shape::Char.union(Shape::Num);
    assert!(matches!(x, Shape::Any));
}

#[test]
fn shape_primitive_describes_the_top_value() {
    let vm = run(vec![num(3), ident("iota"), ident("shape")]);
    let tag = vm.stack()[0].as_list().unwrap();
    let first: String = tag[0].as_string().unwrap().into_iter().collect();
    assert_eq!(first, "array");
    let inner: String = tag[1].as_string().unwrap().into_iter().collect();
    assert_eq!(inner, "num");
    let vm = run(vec![Expr::StrLit(chars_of("hey")), ident("shape")]);
    let s: String = vm.stack()[0].as_string().unwrap().into_iter().collect();
    assert_eq!(s, "string");
}
