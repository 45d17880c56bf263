//! A sorted multiset: a sequence of (element, multiplicity) pairs, strictly
//! increasing by the element order, each multiplicity at least one.
//! Multiplicity arithmetic saturates at the machine bounds.

use vstd::prelude::*;
use crate::order::{Cmp, StrictOrder};

verus! {

/// A multiset over a totally ordered element type, kept as sorted
/// (element, multiplicity) pairs.
#[derive(Debug)]
pub struct Polyset<T> {
    elems: Vec<(T, i64)>,
}

/// The models of a sequence of pairs, element by element.
pub open spec fn pairs_view<T: View>(s: Seq<(T, i64)>) -> Seq<(T::V, int)>
    decreases s,
{
    if s.len() == 0 {
        Seq::empty()
    } else {
        pairs_view::<T>(s.subrange(0, s.len() - 1)).push((s[s.len() - 1].0@, s[s.len() - 1].1 as int))
    }
}

/// `pairs_view` maps the view over the sequence, element by element.
pub proof fn lemma_pairs_view<T: View>(s: Seq<(T, i64)>)
    ensures
        pairs_view::<T>(s).len() == s.len(),
        forall|i: int| 0 <= i < s.len()
            ==> pairs_view::<T>(s)[i] == (s[i].0@, s[i].1 as int),
    decreases s,
{
    if s.len() > 0 {
        lemma_pairs_view::<T>(s.subrange(0, s.len() - 1));
    }
}

/// The models of a sequence of elements, element by element.
pub open spec fn vals_view<T: View>(s: Seq<T>) -> Seq<T::V>
    decreases s,
{
    if s.len() == 0 {
        Seq::empty()
    } else {
        vals_view::<T>(s.subrange(0, s.len() - 1)).push(s[s.len() - 1]@)
    }
}

/// `vals_view` maps the view over the sequence, element by element.
pub proof fn lemma_vals_view<T: View>(s: Seq<T>)
    ensures
        vals_view::<T>(s).len() == s.len(),
        forall|i: int| 0 <= i < s.len() ==> vals_view::<T>(s)[i] == s[i]@,
    decreases s,
{
    if s.len() > 0 {
        lemma_vals_view::<T>(s.subrange(0, s.len() - 1));
    }
}

/// An integer clamped to the machine range.
pub open spec fn clamp_i64(v: int) -> int {
    if v > i64::MAX {
        i64::MAX as int
    } else if v < i64::MIN {
        i64::MIN as int
    } else {
        v
    }
}

/// Saturating addition.
pub open spec fn sat_add(a: int, b: int) -> int {
    clamp_i64(a + b)
}

/// Saturating multiplication.
pub open spec fn sat_mul(a: int, b: int) -> int {
    clamp_i64(a * b)
}

/// Saturating addition on machine integers.
pub fn sat_add_i64(a: i64, b: i64) -> (r: i64)
    ensures
        r as int == sat_add(a as int, b as int),
{
    match a.checked_add(b) {
        Some(v) => v,
        None => {
            if a > 0 {
                i64::MAX
            } else {
                i64::MIN
            }
        },
    }
}

/// The sign of a product follows the signs of its factors.
proof fn lemma_mul_sign(a: int, b: int)
    by (nonlinear_arith)
    requires
        a != 0,
        b != 0,
    ensures
        ((a > 0) == (b > 0)) ==> a * b > 0,
        ((a > 0) != (b > 0)) ==> a * b < 0,
{
}

/// Saturating multiplication on machine integers.
pub fn sat_mul_i64(a: i64, b: i64) -> (r: i64)
    ensures
        r as int == sat_mul(a as int, b as int),
{
    match a.checked_mul(b) {
        Some(v) => v,
        None => {
            proof {
                assert(a != 0 && b != 0);
                lemma_mul_sign(a as int, b as int);
            }
            if (a > 0) == (b > 0) {
                i64::MAX
            } else {
                i64::MIN
            }
        },
    }
}

/// Insert one occurrence of an element into a sorted pair sequence.
pub open spec fn ps_insert_one<T: StrictOrder>(p: Seq<(T::V, int)>, x: T::V) -> Seq<(T::V, int)>
    decreases p.len(),
{
    if p.len() == 0 {
        seq![(x, 1int)]
    } else if T::before(x, p[0].0) {
        seq![(x, 1int)] + p
    } else if x == p[0].0 {
        seq![(p[0].0, sat_add(p[0].1, 1))] + p.drop_first()
    } else {
        seq![p[0]] + ps_insert_one::<T>(p.drop_first(), x)
    }
}

/// Collect a sequence of elements into sorted pairs, one occurrence each.
pub open spec fn ps_from_seq<T: StrictOrder>(s: Seq<T::V>) -> Seq<(T::V, int)>
    decreases s.len(),
{
    if s.len() == 0 {
        Seq::empty()
    } else {
        ps_insert_one::<T>(ps_from_seq::<T>(s.drop_last()), s.last())
    }
}

/// The multiset sum of two sorted pair sequences: a synchronized merge
/// that adds the multiplicities of shared elements.
pub open spec fn ps_union<T: StrictOrder>(a: Seq<(T::V, int)>, b: Seq<(T::V, int)>) -> Seq<(T::V, int)>
    decreases a.len() + b.len(),
{
    if a.len() == 0 {
        b
    } else if b.len() == 0 {
        a
    } else if T::before(a[0].0, b[0].0) {
        seq![a[0]] + ps_union::<T>(a.drop_first(), b)
    } else if T::before(b[0].0, a[0].0) {
        seq![b[0]] + ps_union::<T>(a, b.drop_first())
    } else {
        seq![(a[0].0, sat_add(a[0].1, b[0].1))] + ps_union::<T>(a.drop_first(), b.drop_first())
    }
}

/// The multiset join of two sorted pair sequences: shared elements keep
/// the product of their multiplicities, all others disappear, and the
/// merge stops when either side is exhausted.
pub open spec fn ps_join<T: StrictOrder>(a: Seq<(T::V, int)>, b: Seq<(T::V, int)>) -> Seq<(T::V, int)>
    decreases a.len() + b.len(),
{
    if a.len() == 0 || b.len() == 0 {
        Seq::empty()
    } else if T::before(a[0].0, b[0].0) {
        ps_join::<T>(a.drop_first(), b)
    } else if T::before(b[0].0, a[0].0) {
        ps_join::<T>(a, b.drop_first())
    } else {
        seq![(a[0].0, sat_mul(a[0].1, b[0].1))] + ps_join::<T>(a.drop_first(), b.drop_first())
    }
}

/// The distinct elements of a pair sequence, in order.
pub open spec fn ps_keys<T: StrictOrder>(p: Seq<(T::V, int)>) -> Seq<T::V> {
    p.map_values(|pair: (T::V, int)| pair.0)
}

impl<T: StrictOrder> View for Polyset<T> {
    type V = Seq<(T::V, int)>;

    closed spec fn view(&self) -> Seq<(T::V, int)> {
        pairs_view::<T>(self.elems@)
    }
}

impl<T: StrictOrder> Polyset<T> {
    /// The empty multiset.
    pub fn new() -> (r: Self)
        ensures
            r@ == Seq::<(T::V, int)>::empty(),
    {
        Polyset { elems: Vec::new() }
    }

    /// A multiset from sorted pairs already in hand; the model is the
    /// model of the pairs.
    pub fn from_pairs(elems: Vec<(T, i64)>) -> (r: Self)
        ensures
            r@ == pairs_view::<T>(elems@),
    {
        Polyset { elems }
    }

    /// The sorted pairs, surrendered.
    pub fn into_pairs(self) -> (r: Vec<(T, i64)>)
        ensures
            pairs_view::<T>(r@) == self@,
    {
        self.elems
    }

    /// The sorted (element, multiplicity) pairs.
    pub fn iter(&self) -> (r: &Vec<(T, i64)>)
        ensures
            pairs_view::<T>(r@) == self@,
    {
        &self.elems
    }

    /// The distinct elements, in sorted order.
    pub fn keys(&self) -> (r: Vec<&T>)
        ensures
            r@.len() == self@.len(),
            forall|i: int| 0 <= i < r@.len() ==> r@[i]@ == self@[i].0,
    {
        proof {
            lemma_pairs_view::<T>(self.elems@);
        }
        let mut r: Vec<&T> = Vec::new();
        let n = self.elems.len();
        let mut i: usize = 0;
        while i < n
            invariant
                n == self.elems@.len(),
                self@ == pairs_view::<T>(self.elems@),
                pairs_view::<T>(self.elems@).len() == n,
                forall|j: int| 0 <= j < n
                    ==> pairs_view::<T>(self.elems@)[j] == (self.elems@[j].0@, self.elems@[j].1 as int),
                i <= n,
                r@.len() == i,
                forall|j: int| 0 <= j < i ==> r@[j] == &self.elems@[j].0,
            decreases n - i,
        {
            let pair = &self.elems[i];
            r.push(&pair.0);
            i += 1;
        }
        r
    }

    /// Insert one occurrence of an element, keeping the pairs sorted.
    fn insert_elem(&mut self, x: T)
        ensures
            final(self)@ == ps_insert_one::<T>(old(self)@, x@),
    {
        let ghost p0: Seq<(T, i64)> = self.elems@;
        let n = self.elems.len();
        let mut k: usize = 0;
        proof {
            lemma_pairs_view::<T>(p0);
            assert(p0.skip(0) =~= p0);
            assert(pairs_view::<T>(p0.take(0)) =~= Seq::<(T::V, int)>::empty());
            lemma_pairs_view::<T>(p0.skip(0));
            assert(pairs_view::<T>(p0.skip(0)) =~= pairs_view::<T>(p0));
        }
        while k < n
            invariant
                n == self.elems@.len(),
                self.elems@ == p0,
                old(self)@ == pairs_view::<T>(p0),
                k <= n,
                forall|j: int| 0 <= j < k ==> T::before(#[trigger] pairs_view::<T>(p0)[j].0, x@),
                pairs_view::<T>(p0).len() == n,
                forall|j: int| 0 <= j < n ==> pairs_view::<T>(p0)[j] == (p0[j].0@, p0[j].1 as int),
                ps_insert_one::<T>(pairs_view::<T>(p0), x@) == pairs_view::<T>(p0.take(k as int))
                    + ps_insert_one::<T>(pairs_view::<T>(p0.skip(k as int)), x@),
            decreases n - k,
        {
            let c = x.cmp_order(&self.elems[k].0);
            let ghost restp: Seq<(T::V, int)> = pairs_view::<T>(p0.skip(k as int));
            proof {
                lemma_pairs_view::<T>(p0.skip(k as int));
                lemma_pairs_view::<T>(p0.skip(k + 1));
                assert(p0.skip(k as int).drop_first() =~= p0.skip(k + 1));
                assert(restp[0] == (p0[k as int].0@, p0[k as int].1 as int));
                assert(restp.drop_first() =~= pairs_view::<T>(p0.skip(k + 1)));
            }
            match c {
                Cmp::Lt => {
                    let pair = (x, 1i64);
                    self.elems.insert(k, pair);
                    proof {
                        lemma_pairs_view::<T>(self.elems@);
                        lemma_pairs_view::<T>(p0.take(k as int));
                        assert(ps_insert_one::<T>(restp, x@) =~= seq![(x@, 1int)] + restp);
                        assert(pairs_view::<T>(self.elems@) =~= pairs_view::<T>(p0.take(k as int))
                            + (seq![(x@, 1int)] + restp));
                    }
                    return ;
                },
                Cmp::Eq => {
                    let cnt = self.elems[k].1;
                    let newc = sat_add_i64(cnt, 1);
                    let pair = (x, newc);
                    self.elems.set(k, pair);
                    proof {
                        lemma_pairs_view::<T>(self.elems@);
                        lemma_pairs_view::<T>(p0.take(k as int));
                        assert(ps_insert_one::<T>(restp, x@)
                            =~= seq![(restp[0].0, sat_add(restp[0].1, 1))] + restp.drop_first());
                        assert(pairs_view::<T>(self.elems@) =~= pairs_view::<T>(p0.take(k as int))
                            + (seq![(restp[0].0, sat_add(restp[0].1, 1))] + restp.drop_first()));
                    }
                    return ;
                },
                Cmp::Gt => {
                    proof {
                        lemma_pairs_view::<T>(p0.take(k as int));
                        lemma_pairs_view::<T>(p0.take(k + 1));
                        assert(ps_insert_one::<T>(restp, x@)
                            =~= seq![restp[0]] + ps_insert_one::<T>(restp.drop_first(), x@));
                        assert(pairs_view::<T>(p0.take(k + 1))
                            =~= pairs_view::<T>(p0.take(k as int)).push(restp[0]));
                        assert(pairs_view::<T>(p0.take(k as int)) + ps_insert_one::<T>(restp, x@)
                            =~= pairs_view::<T>(p0.take(k + 1))
                                + ps_insert_one::<T>(pairs_view::<T>(p0.skip(k + 1)), x@));
                    }
                    k += 1;
                },
            }
        }
        let pair = (x, 1i64);
        self.elems.push(pair);
        proof {
            assert(p0.skip(n as int) =~= Seq::<(T, i64)>::empty());
            assert(pairs_view::<T>(p0.skip(n as int)) =~= Seq::<(T::V, int)>::empty());
            assert(ps_insert_one::<T>(pairs_view::<T>(p0.skip(n as int)), x@) =~= seq![(x@, 1int)]);
            assert(p0.take(n as int) =~= p0);
            lemma_pairs_view::<T>(self.elems@);
            lemma_pairs_view::<T>(p0);
            assert(pairs_view::<T>(self.elems@) =~= pairs_view::<T>(p0).push((x@, 1int)));
            assert(pairs_view::<T>(p0) + seq![(x@, 1int)]
                =~= pairs_view::<T>(p0).push((x@, 1int)));
        }
    }

    /// Build a multiset from a list: sort, merging equal elements while
    /// summing one occurrence per appearance.
    pub fn from_vec(data: Vec<T>) -> (r: Self)
        ensures
            r@ == ps_from_seq::<T>(vals_view(data@)),
    {
        let ghost d0: Seq<T> = data@;
        let mut data = data;
        let mut r = Polyset::<T> { elems: Vec::new() };
        let n = data.len();
        let mut i: usize = 0;
        proof {
            lemma_vals_view(d0);
            assert(d0.skip(0) =~= d0);
            assert(vals_view(d0.take(0)) =~= Seq::<T::V>::empty());
            assert(r@ =~= Seq::<(T::V, int)>::empty());
        }
        while i < n
            invariant
                n == d0.len(),
                vals_view(d0).len() == n,
                forall|j: int| 0 <= j < n ==> vals_view(d0)[j] == d0[j]@,
                i <= n,
                data@ == d0.skip(i as int),
                r@ == ps_from_seq::<T>(vals_view(d0.take(i as int))),
            decreases n - i,
        {
            let x = data.remove(0);
            proof {
                assert(x == d0[i as int]);
                assert(data@ =~= d0.skip(i + 1));
            }
            r.insert_elem(x);
            proof {
                lemma_vals_view(d0.take(i as int));
                lemma_vals_view(d0.take(i + 1));
                assert(vals_view(d0.take(i + 1)).drop_last() =~= vals_view(d0.take(i as int)));
                assert(vals_view(d0.take(i + 1)).last() == d0[i as int]@);
            }
            i += 1;
        }
        proof {
            assert(d0.take(n as int) =~= d0);
        }
        r
    }
}

} // verus!

verus! {

/// The model of a concatenation of pair sequences is the concatenation of
/// the models.
pub proof fn lemma_pairs_view_concat<T: View>(a: Seq<(T, i64)>, b: Seq<(T, i64)>)
    ensures
        pairs_view::<T>(a + b) == pairs_view::<T>(a) + pairs_view::<T>(b),
{
    lemma_pairs_view::<T>(a);
    lemma_pairs_view::<T>(b);
    lemma_pairs_view::<T>(a + b);
    assert(pairs_view::<T>(a + b) =~= pairs_view::<T>(a) + pairs_view::<T>(b));
}

impl<T: StrictOrder> Polyset<T> {
    /// The multiset sum: multiplicities of shared elements are added.
    pub fn union(self, that: Self) -> (r: Self)
        ensures
            r@ == ps_union::<T>(self@, that@),
    {
        let ghost a0: Seq<(T::V, int)> = self@;
        let ghost b0: Seq<(T::V, int)> = that@;
        let mut a = self.elems;
        let mut b = that.elems;
        let mut out: Vec<(T, i64)> = Vec::new();
        proof {
            assert(pairs_view::<T>(out@) =~= Seq::<(T::V, int)>::empty());
        }
        loop
            invariant
                a0 == self@,
                b0 == that@,
                ps_union::<T>(a0, b0) == pairs_view::<T>(out@)
                    + ps_union::<T>(pairs_view::<T>(a@), pairs_view::<T>(b@)),
            decreases a@.len() + b@.len(),
        {
            proof {
                lemma_pairs_view::<T>(a@);
                lemma_pairs_view::<T>(b@);
            }
            if a.len() == 0 {
                let ghost outp: Seq<(T, i64)> = out@;
                let ghost brest: Seq<(T, i64)> = b@;
                out.append(&mut b);
                proof {
                    assert(out@ =~= outp + brest);
                    lemma_pairs_view_concat::<T>(outp, brest);
                }
                return Polyset { elems: out };
            }
            if b.len() == 0 {
                let ghost outp: Seq<(T, i64)> = out@;
                let ghost arest: Seq<(T, i64)> = a@;
                out.append(&mut a);
                proof {
                    assert(out@ =~= outp + arest);
                    lemma_pairs_view_concat::<T>(outp, arest);
                }
                return Polyset { elems: out };
            }
            let ghost av: Seq<(T::V, int)> = pairs_view::<T>(a@);
            let ghost bv: Seq<(T::V, int)> = pairs_view::<T>(b@);
            let c = a[0].0.cmp_order(&b[0].0);
            match c {
                Cmp::Lt => {
                    let ghost ap: Seq<(T, i64)> = a@;
                    let ghost outp: Seq<(T, i64)> = out@;
                    let x = a.remove(0);
                    out.push(x);
                    proof {
                        lemma_pairs_view::<T>(a@);
                        lemma_pairs_view::<T>(out@);
                        lemma_pairs_view::<T>(outp);
                        assert(pairs_view::<T>(a@) =~= av.drop_first());
                        assert(pairs_view::<T>(out@) =~= pairs_view::<T>(outp).push(av[0]));
                        assert(ps_union::<T>(av, bv) =~= seq![av[0]] + ps_union::<T>(av.drop_first(), bv));
                        assert(pairs_view::<T>(outp) + (seq![av[0]] + ps_union::<T>(av.drop_first(), bv))
                            =~= pairs_view::<T>(out@) + ps_union::<T>(av.drop_first(), bv));
                    }
                },
                Cmp::Gt => {
                    let ghost bp: Seq<(T, i64)> = b@;
                    let ghost outp: Seq<(T, i64)> = out@;
                    let x = b.remove(0);
                    out.push(x);
                    proof {
                        lemma_pairs_view::<T>(b@);
                        lemma_pairs_view::<T>(out@);
                        lemma_pairs_view::<T>(outp);
                        assert(pairs_view::<T>(b@) =~= bv.drop_first());
                        assert(pairs_view::<T>(out@) =~= pairs_view::<T>(outp).push(bv[0]));
                        assert(ps_union::<T>(av, bv) =~= seq![bv[0]] + ps_union::<T>(av, bv.drop_first()));
                        assert(pairs_view::<T>(outp) + (seq![bv[0]] + ps_union::<T>(av, bv.drop_first()))
                            =~= pairs_view::<T>(out@) + ps_union::<T>(av, bv.drop_first()));
                    }
                },
                Cmp::Eq => {
                    let ghost outp: Seq<(T, i64)> = out@;
                    let xa = a.remove(0);
                    let xb = b.remove(0);
                    let cnt = sat_add_i64(xa.1, xb.1);
                    let pair = (xa.0, cnt);
                    out.push(pair);
                    proof {
                        lemma_pairs_view::<T>(a@);
                        lemma_pairs_view::<T>(b@);
                        lemma_pairs_view::<T>(out@);
                        lemma_pairs_view::<T>(outp);
                        assert(pairs_view::<T>(a@) =~= av.drop_first());
                        assert(pairs_view::<T>(b@) =~= bv.drop_first());
                        assert(pairs_view::<T>(out@)
                            =~= pairs_view::<T>(outp).push((av[0].0, sat_add(av[0].1, bv[0].1))));
                        assert(ps_union::<T>(av, bv) =~= seq![(av[0].0, sat_add(av[0].1, bv[0].1))]
                            + ps_union::<T>(av.drop_first(), bv.drop_first()));
                        assert(pairs_view::<T>(outp) + (seq![(av[0].0, sat_add(av[0].1, bv[0].1))]
                                + ps_union::<T>(av.drop_first(), bv.drop_first()))
                            =~= pairs_view::<T>(out@) + ps_union::<T>(av.drop_first(), bv.drop_first()));
                    }
                },
            }
        }
    }

    /// The multiset join: shared elements keep the product of their
    /// multiplicities; an element present on one side only disappears.
    pub fn join(self, that: Self) -> (r: Self)
        ensures
            r@ == ps_join::<T>(self@, that@),
    {
        let ghost a0: Seq<(T::V, int)> = self@;
        let ghost b0: Seq<(T::V, int)> = that@;
        let mut a = self.elems;
        let mut b = that.elems;
        let mut out: Vec<(T, i64)> = Vec::new();
        proof {
            assert(pairs_view::<T>(out@) =~= Seq::<(T::V, int)>::empty());
        }
        loop
            invariant
                a0 == self@,
                b0 == that@,
                ps_join::<T>(a0, b0) == pairs_view::<T>(out@)
                    + ps_join::<T>(pairs_view::<T>(a@), pairs_view::<T>(b@)),
            decreases a@.len() + b@.len(),
        {
            proof {
                lemma_pairs_view::<T>(a@);
                lemma_pairs_view::<T>(b@);
            }
            if a.len() == 0 || b.len() == 0 {
                proof {
                    assert(pairs_view::<T>(out@) + ps_join::<T>(pairs_view::<T>(a@), pairs_view::<T>(b@))
                        =~= pairs_view::<T>(out@));
                }
                return Polyset { elems: out };
            }
            let ghost av: Seq<(T::V, int)> = pairs_view::<T>(a@);
            let ghost bv: Seq<(T::V, int)> = pairs_view::<T>(b@);
            let c = a[0].0.cmp_order(&b[0].0);
            match c {
                Cmp::Lt => {
                    let _ = a.remove(0);
                    proof {
                        lemma_pairs_view::<T>(a@);
                        assert(pairs_view::<T>(a@) =~= av.drop_first());
                    }
                },
                Cmp::Gt => {
                    let _ = b.remove(0);
                    proof {
                        lemma_pairs_view::<T>(b@);
                        assert(pairs_view::<T>(b@) =~= bv.drop_first());
                    }
                },
                Cmp::Eq => {
                    let ghost outp: Seq<(T, i64)> = out@;
                    let xa = a.remove(0);
                    let xb = b.remove(0);
                    let cnt = sat_mul_i64(xa.1, xb.1);
                    let pair = (xa.0, cnt);
                    out.push(pair);
                    proof {
                        lemma_pairs_view::<T>(a@);
                        lemma_pairs_view::<T>(b@);
                        lemma_pairs_view::<T>(out@);
                        lemma_pairs_view::<T>(outp);
                        assert(pairs_view::<T>(a@) =~= av.drop_first());
                        assert(pairs_view::<T>(b@) =~= bv.drop_first());
                        assert(pairs_view::<T>(out@)
                            =~= pairs_view::<T>(outp).push((av[0].0, sat_mul(av[0].1, bv[0].1))));
                        assert(ps_join::<T>(av, bv) =~= seq![(av[0].0, sat_mul(av[0].1, bv[0].1))]
                            + ps_join::<T>(av.drop_first(), bv.drop_first()));
                        assert(pairs_view::<T>(outp) + (seq![(av[0].0, sat_mul(av[0].1, bv[0].1))]
                                + ps_join::<T>(av.drop_first(), bv.drop_first()))
                            =~= pairs_view::<T>(out@) + ps_join::<T>(av.drop_first(), bv.drop_first()));
                    }
                },
            }
        }
    }
}

} // verus!

verus! {

/// Well-formedness of a pair sequence: strictly increasing keys, and each
/// multiplicity between one and the machine maximum.
pub open spec fn ps_wf<T: StrictOrder>(p: Seq<(T::V, int)>) -> bool {
    &&& forall|i: int| 0 <= i < p.len() - 1 ==> T::before(#[trigger] p[i].0, p[i + 1].0)
    &&& forall|i: int| 0 <= i < p.len() ==> 1 <= #[trigger] p[i].1 <= i64::MAX
}

/// In a sorted pair sequence, every key is after every earlier one.
pub proof fn lemma_wf_span<T: StrictOrder>(p: Seq<(T::V, int)>, i: int, j: int)
    requires
        ps_wf::<T>(p),
        0 <= i < j < p.len(),
    ensures
        T::before(p[i].0, p[j].0),
    decreases j - i,
{
    if j > i + 1 {
        lemma_wf_span::<T>(p, i, j - 1);
        T::law_transitive(p[i].0, p[j - 1].0, p[j].0);
    }
}

/// A key before the first key of a well-formed pair sequence has
/// multiplicity zero in it.
pub open spec fn ps_mult<T: StrictOrder>(p: Seq<(T::V, int)>, k: T::V) -> int
    decreases p.len(),
{
    if p.len() == 0 {
        0
    } else {
        (if p[0].0 == k {
            p[0].1
        } else {
            0int
        }) + ps_mult::<T>(p.drop_first(), k)
    }
}

/// A key strictly before everything in a well-formed sequence is absent.
pub proof fn lemma_mult_absent<T: StrictOrder>(p: Seq<(T::V, int)>, k: T::V)
    requires
        ps_wf::<T>(p),
        p.len() > 0 ==> T::before(k, p[0].0),
    ensures
        ps_mult::<T>(p, k) == 0,
    decreases p.len(),
{
    if p.len() > 0 {
        T::law_trichotomy(k, p[0].0);
        assert(ps_wf::<T>(p.drop_first())) by {
            assert(forall|i: int| 0 <= i < p.len() - 2
                ==> T::before(#[trigger] p.drop_first()[i].0, p.drop_first()[i + 1].0)) by {
                assert(forall|i: int| 0 <= i < p.len() - 2
                    ==> #[trigger] p.drop_first()[i] == p[i + 1] && p.drop_first()[i + 1] == p[i + 2]);
            }
        }
        if p.len() > 1 {
            T::law_transitive(k, p[0].0, p[1].0);
        }
        lemma_mult_absent::<T>(p.drop_first(), k);
    }
}

/// The tail of a well-formed pair sequence is well formed.
pub proof fn lemma_wf_tail<T: StrictOrder>(p: Seq<(T::V, int)>)
    requires
        ps_wf::<T>(p),
        p.len() > 0,
    ensures
        ps_wf::<T>(p.drop_first()),
{
    assert(forall|i: int| 0 <= i < p.len() - 2
        ==> T::before(#[trigger] p.drop_first()[i].0, p.drop_first()[i + 1].0)) by {
        assert(forall|i: int| 0 <= i < p.len() - 2
            ==> #[trigger] p.drop_first()[i] == p[i + 1] && p.drop_first()[i + 1] == p[i + 2]);
    }
    assert(forall|i: int| 0 <= i < p.len() - 1 ==> 1 <= #[trigger] p.drop_first()[i].1 <= i64::MAX)
        by {
        assert(forall|i: int| 0 <= i < p.len() - 1 ==> #[trigger] p.drop_first()[i] == p[i + 1]);
    }
}

/// The join of two multisets does not depend on the order of its inputs.
pub proof fn lemma_join_commutes<T: StrictOrder>(a: Seq<(T::V, int)>, b: Seq<(T::V, int)>)
    ensures
        ps_join::<T>(a, b) == ps_join::<T>(b, a),
    decreases a.len() + b.len(),
{
    if a.len() == 0 || b.len() == 0 {
        assert(ps_join::<T>(a, b) =~= ps_join::<T>(b, a));
    } else {
        T::law_trichotomy(a[0].0, b[0].0);
        if T::before(a[0].0, b[0].0) {
            lemma_join_commutes::<T>(a.drop_first(), b);
        } else if T::before(b[0].0, a[0].0) {
            lemma_join_commutes::<T>(a, b.drop_first());
        } else {
            lemma_join_commutes::<T>(a.drop_first(), b.drop_first());
            assert(a[0].0 == b[0].0);
            assert(sat_mul(a[0].1, b[0].1) == sat_mul(b[0].1, a[0].1)) by {
                assert(a[0].1 * b[0].1 == b[0].1 * a[0].1) by (nonlinear_arith);
            }
        }
    }
}

/// In a join, a key shared by both inputs carries the product of its two
/// multiplicities; a key missing on either side never appears.
pub proof fn lemma_join_multiplicity<T: StrictOrder>(
    a: Seq<(T::V, int)>,
    b: Seq<(T::V, int)>,
    k: T::V,
)
    requires
        ps_wf::<T>(a),
        ps_wf::<T>(b),
    ensures
        ps_mult::<T>(ps_join::<T>(a, b), k) == (if ps_mult::<T>(a, k) > 0 && ps_mult::<T>(b, k) > 0 {
            sat_mul(ps_mult::<T>(a, k), ps_mult::<T>(b, k))
        } else {
            0
        }),
    decreases a.len() + b.len(),
{
    if a.len() == 0 || b.len() == 0 {
    } else {
        let a1 = a.drop_first();
        let b1 = b.drop_first();
        lemma_wf_tail::<T>(a);
        lemma_wf_tail::<T>(b);
        T::law_trichotomy(a[0].0, b[0].0);
        T::law_trichotomy(a[0].0, k);
        T::law_trichotomy(b[0].0, k);
        if T::before(a[0].0, b[0].0) {
            lemma_join_multiplicity::<T>(a1, b, k);
            if k == a[0].0 {
                if a1.len() > 0 {
                    assert(T::before(a[0].0, a1[0].0));
                }
                lemma_mult_absent::<T>(a1, k);
                lemma_mult_absent::<T>(b, k);
            }
        } else if T::before(b[0].0, a[0].0) {
            lemma_join_multiplicity::<T>(a, b1, k);
            if k == b[0].0 {
                if b1.len() > 0 {
                    assert(T::before(b[0].0, b1[0].0));
                }
                lemma_mult_absent::<T>(b1, k);
                lemma_mult_absent::<T>(a, k);
            }
        } else {
            lemma_join_multiplicity::<T>(a1, b1, k);
            let j = ps_join::<T>(a, b);
            let j1 = ps_join::<T>(a1, b1);
            assert(j == seq![(a[0].0, sat_mul(a[0].1, b[0].1))] + j1);
            assert(j.drop_first() =~= j1);
            if k == a[0].0 {
                lemma_mult_absent::<T>(a1, k);
                if b1.len() > 0 {
                    assert(T::before(b[0].0, b1[0].0));
                }
                lemma_mult_absent::<T>(b1, k);
                assert(ps_mult::<T>(j, k) == sat_mul(a[0].1, b[0].1) + ps_mult::<T>(j1, k));
                assert(ps_mult::<T>(a, k) == a[0].1);
                assert(ps_mult::<T>(b, k) == b[0].1);
            } else {
                assert(ps_mult::<T>(j, k) == ps_mult::<T>(j1, k));
                assert(ps_mult::<T>(a, k) == ps_mult::<T>(a1, k));
                assert(ps_mult::<T>(b, k) == ps_mult::<T>(b1, k));
            }
        }
    }
}

} // verus!

verus! {

/// An element repeated as many times as its multiplicity says.
pub open spec fn rep_elem<T: StrictOrder>(x: T::V, c: int) -> Seq<T::V> {
    Seq::new(if c >= 0 { c as nat } else { 0 }, |i: int| x)
}

/// The expanded listing of a multiset: each element repeated by its
/// multiplicity, in sorted order.
pub open spec fn ps_expand<T: StrictOrder>(p: Seq<(T::V, int)>) -> Seq<T::V>
    decreases p.len(),
{
    if p.len() == 0 {
        Seq::empty()
    } else {
        rep_elem::<T>(p[0].0, p[0].1) + ps_expand::<T>(p.drop_first())
    }
}

/// Insert one occurrence of each listed element, left to right.
pub open spec fn ps_insert_all<T: StrictOrder>(acc: Seq<(T::V, int)>, t: Seq<T::V>) -> Seq<(T::V, int)>
    decreases t.len(),
{
    if t.len() == 0 {
        acc
    } else {
        ps_insert_all::<T>(ps_insert_one::<T>(acc, t[0]), t.drop_first())
    }
}

/// Inserting a trailing element last is the same as appending it to the
/// insertion list.
proof fn lemma_insert_all_push<T: StrictOrder>(acc: Seq<(T::V, int)>, s: Seq<T::V>, x: T::V)
    ensures
        ps_insert_all::<T>(acc, s.push(x)) == ps_insert_one::<T>(ps_insert_all::<T>(acc, s), x),
    decreases s.len(),
{
    if s.len() == 0 {
        assert(s.push(x)[0] == x);
        assert(s.push(x).drop_first() =~= Seq::<T::V>::empty());
        assert(ps_insert_all::<T>(acc, s.push(x))
            == ps_insert_all::<T>(ps_insert_one::<T>(acc, x), Seq::empty()));
        assert(ps_insert_all::<T>(ps_insert_one::<T>(acc, x), Seq::empty())
            == ps_insert_one::<T>(acc, x));
        assert(ps_insert_all::<T>(acc, s) == acc);
    } else {
        assert(s.push(x)[0] == s[0]);
        assert(s.push(x).drop_first() =~= s.drop_first().push(x));
        assert(ps_insert_all::<T>(acc, s.push(x))
            == ps_insert_all::<T>(ps_insert_one::<T>(acc, s[0]), s.drop_first().push(x)));
        lemma_insert_all_push::<T>(ps_insert_one::<T>(acc, s[0]), s.drop_first(), x);
        assert(ps_insert_all::<T>(acc, s)
            == ps_insert_all::<T>(ps_insert_one::<T>(acc, s[0]), s.drop_first()));
    }
}

/// Collecting a list is inserting its elements one by one.
pub proof fn lemma_from_seq_is_insert_all<T: StrictOrder>(s: Seq<T::V>)
    ensures
        ps_from_seq::<T>(s) == ps_insert_all::<T>(Seq::empty(), s),
    decreases s.len(),
{
    if s.len() > 0 {
        lemma_from_seq_is_insert_all::<T>(s.drop_last());
        lemma_insert_all_push::<T>(Seq::empty(), s.drop_last(), s.last());
        assert(s.drop_last().push(s.last()) =~= s);
    }
}

/// Insertion lists concatenate.
proof fn lemma_insert_all_concat<T: StrictOrder>(
    acc: Seq<(T::V, int)>,
    s: Seq<T::V>,
    t: Seq<T::V>,
)
    ensures
        ps_insert_all::<T>(acc, s + t) == ps_insert_all::<T>(ps_insert_all::<T>(acc, s), t),
    decreases s.len(),
{
    if s.len() == 0 {
        assert(s + t =~= t);
    } else {
        assert((s + t)[0] == s[0]);
        assert((s + t).drop_first() =~= s.drop_first() + t);
        lemma_insert_all_concat::<T>(ps_insert_one::<T>(acc, s[0]), s.drop_first(), t);
    }
}

/// Inserting an element after the head key passes the head through.
proof fn lemma_insert_past_head<T: StrictOrder>(p0: (T::V, int), q: Seq<(T::V, int)>, x: T::V)
    requires
        T::before(p0.0, x),
    ensures
        ps_insert_one::<T>(seq![p0] + q, x) == seq![p0] + ps_insert_one::<T>(q, x),
{
    T::law_trichotomy(p0.0, x);
    assert((seq![p0] + q)[0] == p0);
    assert((seq![p0] + q).drop_first() =~= q);
}

/// Inserting elements all after the head key passes the head through.
proof fn lemma_insert_all_past_head<T: StrictOrder>(
    p0: (T::V, int),
    acc: Seq<(T::V, int)>,
    t: Seq<T::V>,
)
    requires
        forall|i: int| 0 <= i < t.len() ==> T::before(p0.0, #[trigger] t[i]),
    ensures
        ps_insert_all::<T>(seq![p0] + acc, t) == seq![p0] + ps_insert_all::<T>(acc, t),
    decreases t.len(),
{
    if t.len() > 0 {
        lemma_insert_past_head::<T>(p0, acc, t[0]);
        lemma_insert_all_past_head::<T>(p0, ps_insert_one::<T>(acc, t[0]), t.drop_first());
    }
}

/// Inserting an element repeatedly into its own singleton counts up.
proof fn lemma_insert_all_rep<T: StrictOrder>(x: T::V, k: int, m: int)
    requires
        1 <= k,
        0 <= m,
        k + m <= i64::MAX,
    ensures
        ps_insert_all::<T>(seq![(x, k)], rep_elem::<T>(x, m)) == seq![(x, k + m)],
    decreases m,
{
    if m == 0 {
        assert(rep_elem::<T>(x, 0) =~= Seq::<T::V>::empty());
    } else {
        T::law_trichotomy(x, x);
        assert(rep_elem::<T>(x, m)[0] == x);
        assert(rep_elem::<T>(x, m).drop_first() =~= rep_elem::<T>(x, m - 1));
        assert(ps_insert_one::<T>(seq![(x, k)], x) =~= seq![(x, k + 1)]) by {
            assert((seq![(x, k)]).drop_first() =~= Seq::<(T::V, int)>::empty());
        }
        lemma_insert_all_rep::<T>(x, k + 1, m - 1);
    }
}

/// Every element of an expansion is a key of the expanded sequence, so a
/// bound on the keys bounds the expansion.
proof fn lemma_expand_after<T: StrictOrder>(x0: T::V, q: Seq<(T::V, int)>)
    requires
        forall|j: int| 0 <= j < q.len() ==> T::before(x0, #[trigger] q[j].0),
    ensures
        forall|i: int| 0 <= i < ps_expand::<T>(q).len()
            ==> T::before(x0, #[trigger] ps_expand::<T>(q)[i]),
    decreases q.len(),
{
    if q.len() > 0 {
        assert(forall|j: int| 0 <= j < q.drop_first().len()
            ==> T::before(x0, #[trigger] q.drop_first()[j].0)) by {
            assert(forall|j: int| 0 <= j < q.drop_first().len()
                ==> #[trigger] q.drop_first()[j] == q[j + 1]);
        }
        lemma_expand_after::<T>(x0, q.drop_first());
        let e = ps_expand::<T>(q);
        let c = rep_elem::<T>(q[0].0, q[0].1);
        assert forall|i: int| 0 <= i < e.len() implies T::before(x0, #[trigger] e[i]) by {
            if i < c.len() {
                assert(e[i] == q[0].0);
            } else {
                assert(e[i] == ps_expand::<T>(q.drop_first())[i - c.len()]);
            }
        }
    }
}

/// Re-deriving a multiset from its own expanded listing reproduces the
/// same sorted pairs.
pub proof fn lemma_from_expansion<T: StrictOrder>(p: Seq<(T::V, int)>)
    requires
        ps_wf::<T>(p),
    ensures
        ps_from_seq::<T>(ps_expand::<T>(p)) == p,
    decreases p.len(),
{
    lemma_from_seq_is_insert_all::<T>(ps_expand::<T>(p));
    if p.len() == 0 {
    } else {
        let x0 = p[0].0;
        let c0 = p[0].1;
        let p1 = p.drop_first();
        let e1 = ps_expand::<T>(p1);
        lemma_wf_tail::<T>(p);
        lemma_insert_all_concat::<T>(Seq::empty(), rep_elem::<T>(x0, c0), e1);
        assert(rep_elem::<T>(x0, c0) =~= seq![x0] + rep_elem::<T>(x0, c0 - 1));
        lemma_insert_all_concat::<T>(Seq::empty(), seq![x0], rep_elem::<T>(x0, c0 - 1));
        assert(ps_insert_all::<T>(Seq::empty(), seq![x0]) =~= seq![(x0, 1int)]) by {
            let s1 = seq![x0];
            assert(s1[0] == x0);
            assert(s1.drop_first() =~= Seq::<T::V>::empty());
            assert(ps_insert_one::<T>(Seq::empty(), x0) == seq![(x0, 1int)]);
            assert(ps_insert_all::<T>(Seq::empty(), s1)
                == ps_insert_all::<T>(seq![(x0, 1int)], Seq::empty()));
            assert(ps_insert_all::<T>(seq![(x0, 1int)], Seq::empty()) == seq![(x0, 1int)]);
        }
        lemma_insert_all_rep::<T>(x0, 1, c0 - 1);
        assert(ps_insert_all::<T>(Seq::empty(), rep_elem::<T>(x0, c0)) == seq![(x0, c0)]);
        assert(forall|j: int| 0 <= j < p1.len() ==> T::before(x0, #[trigger] p1[j].0)) by {
            assert forall|j: int| 0 <= j < p1.len() implies T::before(x0, #[trigger] p1[j].0) by {
                assert(p1[j] == p[j + 1]);
                lemma_wf_span::<T>(p, 0, j + 1);
            }
        }
        lemma_expand_after::<T>(x0, p1);
        lemma_insert_all_past_head::<T>((x0, c0), Seq::empty(), e1);
        lemma_from_seq_is_insert_all::<T>(e1);
        lemma_from_expansion::<T>(p1);
        assert(ps_from_seq::<T>(ps_expand::<T>(p)) == seq![(x0, c0)] + p1);
        assert(seq![(x0, c0)] + p1 =~= p);
    }
}

/// The head of an insertion is the inserted element or the old head.
proof fn lemma_insert_one_head<T: StrictOrder>(q: Seq<(T::V, int)>, x: T::V)
    ensures
        ps_insert_one::<T>(q, x).len() >= 1,
        ps_insert_one::<T>(q, x).len() >= q.len(),
        ps_insert_one::<T>(q, x)[0].0 == x || (q.len() > 0 && ps_insert_one::<T>(q, x)[0].0
            == q[0].0),
    decreases q.len(),
{
    if q.len() > 0 && !T::before(x, q[0].0) && x != q[0].0 {
        lemma_insert_one_head::<T>(q.drop_first(), x);
    }
}

/// Inserting one occurrence keeps a multiset well formed.
pub proof fn lemma_insert_one_wf<T: StrictOrder>(q: Seq<(T::V, int)>, x: T::V)
    requires
        ps_wf::<T>(q),
    ensures
        ps_wf::<T>(ps_insert_one::<T>(q, x)),
    decreases q.len(),
{
    let r = ps_insert_one::<T>(q, x);
    if q.len() == 0 {
        assert(ps_wf::<T>(r));
    } else if T::before(x, q[0].0) {
        assert forall|i: int| 0 <= i < r.len() - 1 implies T::before(#[trigger] r[i].0, r[i + 1].0)
        by {
            if i == 0 {
            } else {
                assert(r[i] == q[i - 1] && r[i + 1] == q[i]);
            }
        }
        assert(forall|i: int| 0 <= i < r.len() ==> 1 <= #[trigger] r[i].1 <= i64::MAX) by {
            assert(forall|i: int| 1 <= i < r.len() ==> #[trigger] r[i] == q[i - 1]);
        }
    } else if x == q[0].0 {
        assert forall|i: int| 0 <= i < r.len() - 1 implies T::before(#[trigger] r[i].0, r[i + 1].0)
        by {
            assert(r[i] == (if i == 0 {
                (q[0].0, sat_add(q[0].1, 1))
            } else {
                q[i]
            }));
            assert(r[i + 1] == q[i + 1]);
        }
        assert(forall|i: int| 0 <= i < r.len() ==> 1 <= #[trigger] r[i].1 <= i64::MAX) by {
            assert(forall|i: int| 1 <= i < r.len() ==> #[trigger] r[i] == q[i]);
        }
    } else {
        lemma_wf_tail::<T>(q);
        lemma_insert_one_wf::<T>(q.drop_first(), x);
        lemma_insert_one_head::<T>(q.drop_first(), x);
        let r1 = ps_insert_one::<T>(q.drop_first(), x);
        T::law_trichotomy(x, q[0].0);
        assert forall|i: int| 0 <= i < r.len() - 1 implies T::before(#[trigger] r[i].0, r[i + 1].0)
        by {
            if i == 0 {
                assert(r[0] == q[0] && r[1] == r1[0]);
                if r1[0].0 == x {
                } else {
                    assert(r1[0].0 == q.drop_first()[0].0);
                }
            } else {
                assert(r[i] == r1[i - 1] && r[i + 1] == r1[i]);
            }
        }
        assert(forall|i: int| 0 <= i < r.len() ==> 1 <= #[trigger] r[i].1 <= i64::MAX) by {
            assert(forall|i: int| 1 <= i < r.len() ==> #[trigger] r[i] == r1[i - 1]);
        }
    }
}

/// A multiset collected from a list is well formed.
pub proof fn lemma_from_seq_wf<T: StrictOrder>(s: Seq<T::V>)
    ensures
        ps_wf::<T>(ps_from_seq::<T>(s)),
    decreases s.len(),
{
    if s.len() > 0 {
        lemma_from_seq_wf::<T>(s.drop_last());
        lemma_insert_one_wf::<T>(ps_from_seq::<T>(s.drop_last()), s.last());
    }
}

} // verus!
