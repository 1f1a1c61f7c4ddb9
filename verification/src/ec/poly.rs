//! Polynomials over the field of 256 elements, as sequences of coefficients with the
//! constant first.
use vstd::prelude::*;

use crate::ec::field::{
    lemma_associates, lemma_commutes, lemma_distributes_left, lemma_distributes_right,
    lemma_inverse, lemma_no_zero_divisors, lemma_product_one, lemma_product_zero, lemma_regroup,
    lemma_sums, power, product,
};

verus! {

/// The value of a polynomial at a point.
pub open spec fn eval(poly: Seq<u8>, x: u8) -> u8
    decreases poly.len(),
{
    if poly.len() == 0 {
        0
    } else {
        poly[0] ^ product(x, eval(poly.drop_first(), x))
    }
}

/// The values of a polynomial at several points.
pub open spec fn evals(poly: Seq<u8>, points: Seq<u8>) -> Seq<u8> {
    Seq::new(points.len(), |i: int| eval(poly, points[i]))
}

/// The polynomial with as many coefficients as there are points that has the given
/// values there.
pub open spec fn interpolated(points: Seq<u8>, values: Seq<u8>) -> Seq<u8> {
    choose|poly: Seq<u8>| poly.len() == points.len() && #[trigger] evals(poly, points) == values
}

pub open spec fn all_zero(values: Seq<u8>) -> bool {
    forall|i: int| 0 <= i < values.len() ==> values[i] == 0
}

/// The sum of two sequences, item by item.
pub open spec fn sum(a: Seq<u8>, b: Seq<u8>) -> Seq<u8> {
    Seq::new(a.len(), |i: int| a[i] ^ b[i])
}

/// Every item times `k`.
pub open spec fn scaled(k: u8, a: Seq<u8>) -> Seq<u8> {
    Seq::new(a.len(), |i: int| product(k, a[i]))
}

proof fn lemma_eval_sum(a: Seq<u8>, b: Seq<u8>, x: u8)
    requires
        a.len() == b.len(),
    ensures
        eval(sum(a, b), x) == eval(a, x) ^ eval(b, x),
    decreases a.len(),
{
    if a.len() == 0 {
        lemma_sums(0, 0, 0);
    } else {
        let (ra, rb) = (a.drop_first(), b.drop_first());
        lemma_eval_sum(ra, rb, x);
        assert(sum(a, b).drop_first() =~= sum(ra, rb));
        lemma_distributes_right(x, eval(ra, x), eval(rb, x));
        lemma_regroup(a[0], b[0], product(x, eval(ra, x)), product(x, eval(rb, x)));
    }
}

proof fn lemma_eval_scaled(k: u8, a: Seq<u8>, x: u8)
    ensures
        eval(scaled(k, a), x) == product(k, eval(a, x)),
    decreases a.len(),
{
    if a.len() == 0 {
        lemma_product_zero(k);
    } else {
        let rest = a.drop_first();
        lemma_eval_scaled(k, rest, x);
        assert(scaled(k, a).drop_first() =~= scaled(k, rest));
        let e = eval(rest, x);
        lemma_distributes_right(k, a[0], product(x, e));
        lemma_associates(x, k, e);
        lemma_associates(k, x, e);
        lemma_commutes(x, k);
    }
}

/// A leading zero changes no value.
proof fn lemma_eval_padded(a: Seq<u8>, x: u8)
    ensures
        eval(a.push(0), x) == eval(a, x),
    decreases a.len(),
{
    if a.len() == 0 {
        assert(a.push(0).drop_first() =~= Seq::<u8>::empty());
        assert(eval(Seq::<u8>::empty(), x) == 0);
        lemma_product_zero(x);
        lemma_sums(0, 0, 0);
    } else {
        assert(a.push(0).drop_first() =~= a.drop_first().push(0));
        lemma_eval_padded(a.drop_first(), x);
    }
}

/// What is left of a polynomial after division by x - a, without the remainder.
spec fn quotient(poly: Seq<u8>, a: u8) -> Seq<u8>
    decreases poly.len(),
{
    if poly.len() <= 1 {
        Seq::empty()
    } else {
        seq![eval(poly.drop_first(), a)] + quotient(poly.drop_first(), a)
    }
}

/// Division by x - a leaves the value at a.
proof fn lemma_division(poly: Seq<u8>, a: u8, x: u8)
    requires
        poly.len() > 0,
    ensures
        quotient(poly, a).len() == poly.len() - 1,
        eval(poly, x) == product(x ^ a, eval(quotient(poly, a), x)) ^ eval(poly, a),
    decreases poly.len(),
{
    let rest = poly.drop_first();
    let c = poly[0];
    if poly.len() == 1 {
        assert(eval(rest, x) == 0 && eval(rest, a) == 0);
        assert(eval(quotient(poly, a), x) == 0);
        lemma_product_zero(x);
        lemma_product_zero(a);
        lemma_product_zero(x ^ a);
        lemma_sums(c, 0, 0);
    } else {
        lemma_division(rest, a, x);
        let q = quotient(rest, a);
        let at = eval(rest, a);
        let qx = eval(q, x);
        assert(quotient(poly, a).drop_first() =~= q);
        let s = x ^ a;
        // x (s q + at) = s (x q) + x at
        lemma_distributes_right(x, product(s, qx), at);
        lemma_associates(x, s, qx);
        lemma_associates(s, x, qx);
        lemma_commutes(x, s);
        // s (at + x q) = s at + s (x q), and s at = x at + a at
        lemma_distributes_right(s, at, product(x, qx));
        lemma_distributes_left(x, a, at);
        let (sxq, xat, aat) = (product(s, product(x, qx)), product(x, at), product(a, at));
        assert(c ^ (sxq ^ xat) == ((xat ^ aat) ^ sxq) ^ (c ^ aat)) by (bit_vector);
    }
}

/// A polynomial that a division leaves nothing of is zero.
proof fn lemma_zero_quotient(poly: Seq<u8>, a: u8)
    requires
        eval(poly, a) == 0,
        all_zero(quotient(poly, a)),
    ensures
        all_zero(poly),
    decreases poly.len(),
{
    if poly.len() >= 1 {
        let rest = poly.drop_first();
        lemma_product_zero(a);
        lemma_sums(poly[0], 0, 0);
        if poly.len() > 1 {
            let q = quotient(poly, a);
            assert(q[0] == eval(rest, a));
            assert(q.drop_first() =~= quotient(rest, a));
            assert forall|i: int| 0 <= i < quotient(rest, a).len() implies quotient(rest, a)[i]
                == 0 by {
                assert(q[i + 1] == quotient(rest, a)[i]);
            }
            lemma_zero_quotient(rest, a);
        }
        assert(eval(rest, a) == 0);
        assert(poly[0] == 0);
        assert forall|i: int| 0 <= i < poly.len() implies poly[i] == 0 by {
            if i > 0 {
                assert(poly[i] == rest[i - 1]);
            }
        }
    }
}

/// A polynomial with as many roots as coefficients is zero.
pub proof fn lemma_roots(poly: Seq<u8>, points: Seq<u8>)
    requires
        points.no_duplicates(),
        poly.len() <= points.len(),
        all_zero(evals(poly, points)),
    ensures
        all_zero(poly),
    decreases poly.len(),
{
    if poly.len() > 0 {
        let a = points.last();
        let others = points.drop_last();
        let q = quotient(poly, a);
        lemma_division(poly, a, a);
        assert(evals(poly, points)[points.len() - 1] == 0);
        assert forall|i: int| 0 <= i < others.len() implies evals(q, others)[i] == 0 by {
            let x = points[i];
            assert(evals(poly, points)[i] == 0);
            lemma_division(poly, a, x);
            lemma_sums(product(x ^ a, eval(q, x)), 0, 0);
            lemma_no_zero_divisors(x ^ a, eval(q, x));
            lemma_sums(x, a, 0);
        }
        lemma_roots(q, others);
        lemma_zero_quotient(poly, a);
    }
}

/// The product of a polynomial and x - a.
spec fn times_linear(poly: Seq<u8>, a: u8) -> Seq<u8> {
    sum(seq![0u8] + poly, scaled(a, poly).push(0))
}

proof fn lemma_times_linear(poly: Seq<u8>, a: u8, x: u8)
    ensures
        times_linear(poly, a).len() == poly.len() + 1,
        eval(times_linear(poly, a), x) == product(x ^ a, eval(poly, x)),
{
    let up = seq![0u8] + poly;
    let low = scaled(a, poly).push(0);
    lemma_eval_sum(up, low, x);
    assert(up.drop_first() =~= poly);
    lemma_sums(product(x, eval(poly, x)), 0, 0);
    lemma_eval_padded(scaled(a, poly), x);
    lemma_eval_scaled(a, poly, x);
    lemma_distributes_left(x, a, eval(poly, x));
}

/// A polynomial that is zero at the given points.
spec fn vanishing(points: Seq<u8>) -> Seq<u8>
    decreases points.len(),
{
    if points.len() == 0 {
        seq![1u8]
    } else {
        times_linear(vanishing(points.drop_last()), points.last())
    }
}

proof fn lemma_vanishing(points: Seq<u8>, x: u8)
    ensures
        vanishing(points).len() == points.len() + 1,
        eval(vanishing(points), x) == 0 <==> points.contains(x),
    decreases points.len(),
{
    if points.len() == 0 {
        assert(seq![1u8].drop_first() =~= Seq::<u8>::empty());
        assert(eval(Seq::<u8>::empty(), x) == 0);
        lemma_product_zero(x);
        lemma_sums(1, 0, 0);
    } else {
        let others = points.drop_last();
        let a = points.last();
        lemma_vanishing(others, x);
        lemma_times_linear(vanishing(others), a, x);
        let e = eval(vanishing(others), x);
        lemma_sums(x, a, 0);
        lemma_sums(x, x, 0);
        lemma_product_zero(e);
        lemma_product_zero(x ^ a);
        if product(x ^ a, e) == 0 {
            lemma_no_zero_divisors(x ^ a, e);
            if x == a {
                assert(points[points.len() - 1] == x);
            } else {
                let i = choose|i: int| 0 <= i < others.len() && others[i] == x;
                assert(points[i] == x);
            }
        }
        if points.contains(x) {
            let i = choose|i: int| 0 <= i < points.len() && points[i] == x;
            if i < others.len() {
                assert(others[i] == x);
            }
        }
    }
}

/// A polynomial through any values at distinct points.
proof fn lemma_through(points: Seq<u8>, values: Seq<u8>) -> (poly: Seq<u8>)
    requires
        points.no_duplicates(),
        points.len() == values.len(),
    ensures
        poly.len() == points.len(),
        evals(poly, points) == values,
    decreases points.len(),
{
    if points.len() == 0 {
        let poly = Seq::<u8>::empty();
        assert(evals(poly, points) =~= values);
        poly
    } else {
        let others = points.drop_last();
        let a = points.last();
        let before = lemma_through(others, values.drop_last());
        let w = vanishing(others);
        lemma_vanishing(others, a);
        assert(!others.contains(a)) by {
            if others.contains(a) {
                let i = choose|i: int| 0 <= i < others.len() && others[i] == a;
                assert(points[i] == points[points.len() - 1]);
            }
        }
        let wa = eval(w, a);
        let missing = values.last() ^ eval(before, a);
        let k = product(missing, power(wa, 254));
        let poly = sum(before.push(0), scaled(k, w));
        assert forall|i: int| 0 <= i < points.len() implies eval(poly, points[i]) == values[i] by {
            let x = points[i];
            lemma_eval_sum(before.push(0), scaled(k, w), x);
            lemma_eval_padded(before, x);
            lemma_eval_scaled(k, w, x);
            if i < others.len() {
                assert(evals(before, others)[i] == values.drop_last()[i]);
                assert(others[i] == x);
                lemma_vanishing(others, x);
                lemma_product_zero(k);
                lemma_sums(eval(before, x), 0, 0);
            } else {
                lemma_inverse(wa);
                lemma_associates(missing, power(wa, 254), wa);
                lemma_product_one(missing);
                let (v, e) = (values.last(), eval(before, a));
                lemma_sums(e, v ^ e, 0);
                lemma_sums(v, e, e);
                lemma_sums(e, e, 0);
                lemma_sums(v, 0, 0);
            }
        }
        assert(evals(poly, points) =~= values);
        poly
    }
}

/// There is one polynomial, and only one, through given values at distinct points.
pub proof fn lemma_interpolation(points: Seq<u8>, values: Seq<u8>)
    requires
        points.no_duplicates(),
        points.len() == values.len(),
    ensures
        interpolated(points, values).len() == points.len(),
        evals(interpolated(points, values), points) == values,
        forall|poly: Seq<u8>|
            poly.len() == points.len() && #[trigger] evals(poly, points) == values ==> poly
                == interpolated(points, values),
{
    let witness = lemma_through(points, values);
    assert(evals(witness, points) == values);
    let one = interpolated(points, values);
    assert(one.len() == points.len() && evals(one, points) == values);
    assert forall|poly: Seq<u8>|
        poly.len() == points.len() && #[trigger] evals(poly, points) == values implies poly
        == one by {
        let difference = sum(poly, one);
        assert forall|i: int| 0 <= i < points.len() implies evals(difference, points)[i] == 0 by {
            lemma_eval_sum(poly, one, points[i]);
            assert(evals(poly, points)[i] == evals(one, points)[i]);
            lemma_sums(eval(one, points[i]), 0, 0);
        }
        lemma_roots(difference, points);
        assert forall|i: int| 0 <= i < poly.len() implies poly[i] == one[i] by {
            assert(difference[i] == 0);
            lemma_sums(poly[i], one[i], 0);
        }
        assert(poly =~= one);
    }
}

/// The polynomial without coefficients other than zero is zero everywhere.
pub proof fn lemma_eval_zero(poly: Seq<u8>, x: u8)
    requires
        all_zero(poly),
    ensures
        eval(poly, x) == 0,
    decreases poly.len(),
{
    if poly.len() > 0 {
        let rest = poly.drop_first();
        assert forall|i: int| 0 <= i < rest.len() implies rest[i] == 0 by {
            assert(poly[i + 1] == 0);
        }
        lemma_eval_zero(rest, x);
        lemma_product_zero(x);
        lemma_sums(0, 0, 0);
    }
}

} // verus!
