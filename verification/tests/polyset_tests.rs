//! The multiset: building, combining, and its stated laws on concrete
//! values.

use zipvm::polyset::Polyset;
use zipvm::value::Value;
use zipvm::order::Cmp;
use zipvm::valueorder::cmp_value_exec;

fn num(n: i64) -> Value {
    Value::new_i64(n)
}

fn pairs_of(ps: &Polyset<Value>) -> Vec<(i64, i64)> {
    ps.iter()
        .iter()
        .map(|(v, c)| (v.as_i64().expect("number element"), *c))
        .collect()
}

#[test]
fn from_vec_sorts_and_merges() {
    let ps = Polyset::from_vec(vec![num(3), num(1), num(3), num(2), num(1), num(3)]);
    assert_eq!(pairs_of(&ps), vec![(1, 2), (2, 1), (3, 3)]);
}

#[test]
fn from_vec_empty() {
    let ps = Polyset::<Value>::from_vec(Vec::new());
    assert_eq!(ps.iter().len(), 0);
}

#[test]
fn keys_in_sorted_order() {
    let ps = Polyset::from_vec(vec![num(5), num(-1), num(5), num(0)]);
    let ks: Vec<i64> = ps.keys().iter().map(|v| v.as_i64().unwrap()).collect();
    assert_eq!(ks, vec![-1, 0, 5]);
}

#[test]
fn union_adds_multiplicities() {
    let a = Polyset::from_vec(vec![num(1), num(1), num(2)]);
    let b = Polyset::from_vec(vec![num(1), num(3)]);
    let u = a.union(b);
    assert_eq!(pairs_of(&u), vec![(1, 3), (2, 1), (3, 1)]);
}

#[test]
fn join_multiplies_shared_multiplicities() {
    let a = Polyset::from_vec(vec![num(1), num(1), num(2), num(4)]);
    let b = Polyset::from_vec(vec![num(1), num(1), num(1), num(2), num(3)]);
    let j = a.join(b);
    assert_eq!(pairs_of(&j), vec![(1, 6), (2, 1)]);
}

#[test]
fn join_is_commutative() {
    let a = Polyset::from_vec(vec![num(1), num(1), num(2), num(7)]);
    let b = Polyset::from_vec(vec![num(1), num(2), num(2), num(9)]);
    let a2 = Polyset::from_vec(vec![num(1), num(1), num(2), num(7)]);
    let b2 = Polyset::from_vec(vec![num(1), num(2), num(2), num(9)]);
    let ab = a.join(b);
    let ba = b2.join(a2);
    assert_eq!(pairs_of(&ab), pairs_of(&ba));
}

#[test]
fn join_drops_one_sided_keys() {
    let a = Polyset::from_vec(vec![num(1), num(2)]);
    let b = Polyset::from_vec(vec![num(3), num(4)]);
    let j = a.join(b);
    assert_eq!(pairs_of(&j), Vec::new());
}

#[test]
fn from_expansion_reproduces_pairs() {
    let ps = Polyset::from_vec(vec![num(2), num(2), num(5), num(9), num(9), num(9)]);
    let mut expanded: Vec<Value> = Vec::new();
    for (v, c) in ps.iter() {
        for _ in 0..*c {
            expanded.push(v.duplicate());
        }
    }
    let again = Polyset::from_vec(expanded);
    assert_eq!(pairs_of(&ps), pairs_of(&again));
}

#[test]
fn value_order_distinguishes_kinds() {
    let c = Value::new_char('a');
    let n = Value::new_i64(97);
    assert!(matches!(cmp_value_exec(&c, &n), Cmp::Lt));
    assert!(matches!(cmp_value_exec(&n, &n), Cmp::Eq));
    let l1 = Value::new_list(vec![num(1), num(2)]);
    let l2 = Value::new_list(vec![num(1), num(3)]);
    assert!(matches!(cmp_value_exec(&l1, &l2), Cmp::Lt));
    assert!(matches!(cmp_value_exec(&l2, &l1), Cmp::Gt));
}
