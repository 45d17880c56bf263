//! The zipper: navigation, splicing, token editing, and the shape
//! fingerprint on concrete programs.

use zipvm::syntax::Expr;
use zipvm::editor::{Cursor, CursorShape, Mode};
use zipvm::text::chars_of;

fn ident(s: &str) -> Expr {
    Expr::Ident(chars_of(s))
}

fn num(n: i64) -> Expr {
    Expr::NumLit(n)
}

fn head_len(c: &Cursor) -> usize {
    c.head_program().len()
}

#[test]
fn move_right_then_left_restores_split() {
    let mut c = Cursor::initial(vec![num(1), num(2), num(3)]);
    c.move_right();
    assert_eq!(head_len(&c), 1);
    c.move_left();
    assert_eq!(head_len(&c), 0);
    assert_eq!(c.program().len(), 3);
    c.move_right();
    c.move_right();
    c.move_left();
    c.move_right();
    assert_eq!(head_len(&c), 2);
    assert_eq!(c.program().len(), 3);
}

#[test]
fn move_left_at_boundary_is_a_no_op() {
    let mut c = Cursor::initial(vec![num(1)]);
    c.move_left();
    assert_eq!(head_len(&c), 0);
    c.move_right();
    c.move_right();
    assert_eq!(head_len(&c), 1);
}

#[test]
fn shape_ignores_contents() {
    let c1 = Cursor::initial(vec![ident("dup"), num(1)]);
    let c2 = Cursor::initial(vec![ident("del"), num(999)]);
    assert!(c1.shape().same_shape(&c2.shape()));
    let c3 = Cursor::initial(vec![ident("dup")]);
    assert!(!c1.shape().same_shape(&c3.shape()));
}

#[test]
fn shape_reaches_into_quotes() {
    let mut c = Cursor::initial(vec![Expr::Quote(vec![num(1), num(2)])]);
    c.move_right();
    c.move_up();
    let expected = CursorShape::Quote(0, Box::new(CursorShape::Edge(0, 2)), 0);
    assert!(c.shape().same_shape(&expected));
}

#[test]
fn move_up_enters_quote_at_start() {
    let mut c = Cursor::initial(vec![num(7), Expr::Quote(vec![num(1), num(2)])]);
    c.move_right();
    c.move_right();
    c.move_up();
    assert!(matches!(c.mode(), Mode::Normal));
    let expected = CursorShape::Quote(1, Box::new(CursorShape::Edge(0, 2)), 0);
    assert!(c.shape().same_shape(&expected));
    c.move_out();
    let back = CursorShape::Edge(2, 0);
    assert!(c.shape().same_shape(&back));
    assert_eq!(c.program().len(), 2);
}

#[test]
fn insert_and_escape_builds_an_identifier() {
    let mut c = Cursor::empty();
    c.insert(Cursor::empty_ident());
    assert!(matches!(c.mode(), Mode::Ident));
    c.input('d');
    c.input('u');
    c.input('p');
    c.escape_to_normal();
    assert!(matches!(c.mode(), Mode::Normal));
    let p = c.program();
    assert_eq!(p.len(), 1);
    match &p[0] {
        Expr::Ident(cs) => assert_eq!(cs, &vec!['d', 'u', 'p']),
        _ => panic!("expected an identifier"),
    }
}

#[test]
fn caret_edits_inside_an_identifier() {
    let mut c = Cursor::empty();
    c.insert(Cursor::empty_ident());
    c.input('a');
    c.input('c');
    c.move_left();
    c.input('b');
    c.escape_to_normal();
    let p = c.program();
    match &p[0] {
        Expr::Ident(cs) => assert_eq!(cs, &vec!['a', 'b', 'c']),
        _ => panic!("expected an identifier"),
    }
}

#[test]
fn numeric_token_folds_digits_and_drops_empty() {
    let mut c = Cursor::empty();
    c.insert(Cursor::empty_num_lit());
    assert!(matches!(c.mode(), Mode::NumLit));
    c.input('4');
    c.input('2');
    c.input('x');
    c.escape_to_normal();
    let p = c.program();
    match &p[0] {
        Expr::NumLit(n) => assert_eq!(*n, 42),
        _ => panic!("expected a number"),
    }
    let mut d = Cursor::empty();
    d.insert(Cursor::empty_num_lit());
    d.escape_to_normal();
    assert_eq!(d.program().len(), 0);
}

#[test]
fn delete_before_drops_one_expression() {
    let mut c = Cursor::initial(vec![num(1), num(2)]);
    c.move_right();
    c.move_right();
    c.delete_before();
    let p = c.program();
    assert_eq!(p.len(), 1);
    match &p[0] {
        Expr::NumLit(n) => assert_eq!(*n, 1),
        _ => panic!("expected a number"),
    }
}

#[test]
fn move_very_left_returns_to_the_start() {
    let mut c = Cursor::initial(vec![num(1), num(2), num(3)]);
    c.move_right();
    c.move_right();
    c.move_very_left();
    assert_eq!(head_len(&c), 0);
    assert_eq!(c.program().len(), 3);
}

#[test]
fn local_program_skips_quote_wrapping() {
    let mut c = Cursor::initial(vec![Expr::Quote(vec![num(5)])]);
    c.move_right();
    c.move_up();
    let inner = c.local_program();
    assert_eq!(inner.len(), 1);
    match &inner[0] {
        Expr::NumLit(n) => assert_eq!(*n, 5),
        _ => panic!("expected a number"),
    }
    let whole = c.program();
    assert_eq!(whole.len(), 1);
    assert!(matches!(whole[0], Expr::Quote(_)));
}
