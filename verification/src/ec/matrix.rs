//! Matrices over the field of 256 elements, as sequences of rows.
use vstd::prelude::*;

use crate::ec::codec::EcError;
use crate::ec::field::{
    gf_inv, gf_mul, lemma_associates, lemma_distributes_left, lemma_distributes_right,
    lemma_no_zero_divisors, lemma_product_one, lemma_product_zero, lemma_regroup, lemma_sums,
    power, product,
};
use crate::ec::poly::{all_zero, eval, scaled};

verus! {

/// The sum of the products of the items of two sequences.
pub open spec fn dot(a: Seq<u8>, b: Seq<u8>) -> u8
    decreases a.len(),
{
    if a.len() == 0 {
        0
    } else {
        product(a[0], b[0]) ^ dot(a.drop_first(), b.drop_first())
    }
}

/// The product of a matrix and a column.
pub open spec fn apply(m: Seq<Seq<u8>>, x: Seq<u8>) -> Seq<u8> {
    Seq::new(m.len(), |i: int| dot(m[i], x))
}

/// Whether the matrix has `height` rows of `width` items.
pub open spec fn shaped(m: Seq<Seq<u8>>, height: nat, width: nat) -> bool {
    &&& m.len() == height
    &&& forall|i: int| 0 <= i < height ==> (#[trigger] m[i]).len() == width
}

/// Whether applying either matrix undoes the other.
pub open spec fn inverses(m: Seq<Seq<u8>>, inverse: Seq<Seq<u8>>) -> bool {
    &&& forall|x: Seq<u8>| x.len() == m.len() ==> apply(inverse, #[trigger] apply(m, x)) == x
    &&& forall|x: Seq<u8>| x.len() == m.len() ==> apply(m, #[trigger] apply(inverse, x)) == x
}

/// Whether the matrix takes a column that is not zero to zero.
pub open spec fn singular(m: Seq<Seq<u8>>) -> bool {
    exists|x: Seq<u8>| x.len() == m.len() && !all_zero(x) && all_zero(#[trigger] apply(m, x))
}

/// The rows of an executable matrix.
pub open spec fn rows(m: Seq<Vec<u8>>) -> Seq<Seq<u8>> {
    Seq::new(m.len(), |i: int| m[i]@)
}

/// A row of zeros but for a one at `at`.
pub open spec fn unit(len: nat, at: int) -> Seq<u8> {
    Seq::new(
        len,
        |i: int|
            if i == at {
                1u8
            } else {
                0u8
            },
    )
}

/// Row `r` plus `f` times row `s`.
pub open spec fn combined(r: Seq<u8>, f: u8, s: Seq<u8>) -> Seq<u8> {
    Seq::new(r.len(), |i: int| r[i] ^ product(f, s[i]))
}

pub proof fn lemma_dot_combined(r: Seq<u8>, f: u8, s: Seq<u8>, x: Seq<u8>)
    requires
        r.len() == s.len() == x.len(),
    ensures
        dot(combined(r, f, s), x) == dot(r, x) ^ product(f, dot(s, x)),
    decreases r.len(),
{
    if r.len() == 0 {
        lemma_product_zero(f);
        lemma_sums(0, 0, 0);
    } else {
        let (rr, rs, rx) = (r.drop_first(), s.drop_first(), x.drop_first());
        lemma_dot_combined(rr, f, rs, rx);
        assert(combined(r, f, s).drop_first() =~= combined(rr, f, rs));
        lemma_distributes_left(r[0], product(f, s[0]), x[0]);
        lemma_associates(f, s[0], x[0]);
        lemma_distributes_right(f, product(s[0], x[0]), dot(rs, rx));
        lemma_regroup(
            product(r[0], x[0]),
            product(f, product(s[0], x[0])),
            dot(rr, rx),
            product(f, dot(rs, rx)),
        );
    }
}

proof fn lemma_dot_scaled(k: u8, r: Seq<u8>, x: Seq<u8>)
    requires
        r.len() == x.len(),
    ensures
        dot(scaled(k, r), x) == product(k, dot(r, x)),
    decreases r.len(),
{
    if r.len() == 0 {
        lemma_product_zero(k);
    } else {
        let (rr, rx) = (r.drop_first(), x.drop_first());
        lemma_dot_scaled(k, rr, rx);
        assert(scaled(k, r).drop_first() =~= scaled(k, rr));
        lemma_associates(k, r[0], x[0]);
        lemma_distributes_right(k, product(r[0], x[0]), dot(rr, rx));
    }
}

/// A product of rows in two parts.
proof fn lemma_dot_parts(a: Seq<u8>, b: Seq<u8>, x: Seq<u8>, y: Seq<u8>)
    requires
        a.len() == x.len(),
        b.len() == y.len(),
    ensures
        dot(a + b, x + y) == dot(a, x) ^ dot(b, y),
    decreases a.len(),
{
    if a.len() == 0 {
        assert(a + b =~= b);
        assert(x + y =~= y);
        lemma_sums(dot(b, y), 0, 0);
    } else {
        lemma_dot_parts(a.drop_first(), b, x.drop_first(), y);
        assert((a + b).drop_first() =~= a.drop_first() + b);
        assert((x + y).drop_first() =~= x.drop_first() + y);
        lemma_sums(product(a[0], x[0]), dot(a.drop_first(), x.drop_first()), dot(b, y));
    }
}

/// A product in which every term is zero.
proof fn lemma_dot_zero(a: Seq<u8>, b: Seq<u8>)
    requires
        a.len() == b.len(),
        forall|k: int| 0 <= k < a.len() ==> #[trigger] product(a[k], b[k]) == 0,
    ensures
        dot(a, b) == 0,
    decreases a.len(),
{
    if a.len() > 0 {
        let (ra, rb) = (a.drop_first(), b.drop_first());
        assert forall|k: int| 0 <= k < ra.len() implies #[trigger] product(ra[k], rb[k]) == 0 by {
            assert(product(a[k + 1], b[k + 1]) == 0);
        }
        lemma_dot_zero(ra, rb);
        assert(product(a[0], b[0]) == 0);
        lemma_sums(0, 0, 0);
    }
}

/// A product with one term.
proof fn lemma_dot_one(a: Seq<u8>, b: Seq<u8>, i: int)
    requires
        a.len() == b.len(),
        0 <= i < a.len(),
        forall|k: int| 0 <= k < a.len() && k != i ==> #[trigger] product(a[k], b[k]) == 0,
    ensures
        dot(a, b) == product(a[i], b[i]),
    decreases a.len(),
{
    let (ra, rb) = (a.drop_first(), b.drop_first());
    assert forall|k: int| 0 <= k < ra.len() && k != i - 1 implies #[trigger] product(ra[k], rb[k])
        == 0 by {
        assert(product(a[k + 1], b[k + 1]) == 0);
    }
    if i == 0 {
        lemma_dot_zero(ra, rb);
    } else {
        lemma_dot_one(ra, rb, i - 1);
        assert(product(a[0], b[0]) == 0);
    }
    lemma_sums(product(a[i], b[i]), 0, 0);
}

/// A product with two terms.
proof fn lemma_dot_two(a: Seq<u8>, b: Seq<u8>, i: int, j: int)
    requires
        a.len() == b.len(),
        0 <= i < j < a.len(),
        forall|k: int|
            0 <= k < a.len() && k != i && k != j ==> #[trigger] product(a[k], b[k]) == 0,
    ensures
        dot(a, b) == product(a[i], b[i]) ^ product(a[j], b[j]),
    decreases a.len(),
{
    let (ra, rb) = (a.drop_first(), b.drop_first());
    assert forall|k: int| 0 <= k < ra.len() && k != i - 1 && k != j - 1 implies #[trigger] product(
        ra[k],
        rb[k],
    ) == 0 by {
        assert(product(a[k + 1], b[k + 1]) == 0);
    }
    if i == 0 {
        lemma_dot_one(ra, rb, j - 1);
    } else {
        lemma_dot_two(ra, rb, i - 1, j - 1);
        assert(product(a[0], b[0]) == 0);
        lemma_sums(product(a[i], b[i]) ^ product(a[j], b[j]), 0, 0);
    }
}

pub proof fn lemma_dot_unit(len: nat, at: int, x: Seq<u8>)
    requires
        x.len() == len,
        0 <= at < len,
    ensures
        dot(unit(len, at), x) == x[at],
{
    let u = unit(len, at);
    assert forall|k: int| 0 <= k < len && k != at implies #[trigger] product(u[k], x[k]) == 0 by {
        lemma_product_zero(x[k]);
    }
    lemma_dot_one(u, x, at);
    lemma_product_one(x[at]);
}

/// The powers of `x` from the `from`-th on.
spec fn powers_from(x: u8, from: nat, n: nat) -> Seq<u8> {
    Seq::new(n, |i: int| power(x, (from + i) as nat))
}

proof fn lemma_powers_from(x: u8, from: nat, poly: Seq<u8>)
    ensures
        dot(powers_from(x, from, poly.len()), poly) == product(power(x, from), eval(poly, x)),
    decreases poly.len(),
{
    let p = power(x, from);
    if poly.len() == 0 {
        lemma_product_zero(p);
    } else {
        let rest = poly.drop_first();
        let row = powers_from(x, from, poly.len());
        lemma_powers_from(x, from + 1, rest);
        assert(row.drop_first() =~= powers_from(x, from + 1, rest.len()));
        assert(row[0] == p);
        let e = eval(rest, x);
        assert(power(x, from + 1) == product(x, p));
        crate::ec::field::lemma_commutes(x, p);
        lemma_associates(p, x, e);
        lemma_distributes_right(p, poly[0], product(x, e));
    }
}

/// The first `n` powers of `x`.
pub open spec fn powers(x: u8, n: nat) -> Seq<u8> {
    Seq::new(n, |i: int| power(x, i as nat))
}

/// The product of the powers of `x` and some coefficients is the polynomial's value.
pub proof fn lemma_powers(x: u8, poly: Seq<u8>)
    ensures
        dot(powers(x, poly.len()), poly) == eval(poly, x),
{
    lemma_powers_from(x, 0, poly);
    assert(powers_from(x, 0, poly.len()) =~= powers(x, poly.len()));
    lemma_product_one(eval(poly, x));
}

/// Whether the column is taken to zero.
spec fn solves(m: Seq<Seq<u8>>, x: Seq<u8>) -> bool {
    forall|i: int| 0 <= i < m.len() ==> #[trigger] dot(m[i], x) == 0
}

/// Whether two matrices take the same columns to zero.
spec fn same_kernel(a: Seq<Seq<u8>>, b: Seq<Seq<u8>>, width: nat) -> bool {
    forall|x: Seq<u8>| x.len() == width ==> (#[trigger] solves(a, x) <==> solves(b, x))
}

/// The matrix with a unit matrix on its right.
spec fn extended(m: Seq<Seq<u8>>) -> Seq<Seq<u8>> {
    Seq::new(m.len(), |i: int| m[i] + unit(m.len(), i))
}

/// Whether the first `done` columns are those of the unit matrix.
spec fn reduced(m: Seq<Seq<u8>>, done: int) -> bool {
    forall|i: int, j: int|
        0 <= i < m.len() && 0 <= j < done ==> #[trigger] m[i][j] == if i == j {
            1u8
        } else {
            0u8
        }
}

proof fn lemma_swap(m: Seq<Seq<u8>>, i: int, j: int, width: nat)
    requires
        0 <= i < m.len(),
        0 <= j < m.len(),
    ensures
        same_kernel(m.update(i, m[j]).update(j, m[i]), m, width),
{
    let n = m.update(i, m[j]).update(j, m[i]);
    assert forall|x: Seq<u8>| x.len() == width implies (#[trigger] solves(n, x) <==> solves(m, x)) by {
        if solves(n, x) {
            assert forall|k: int| 0 <= k < m.len() implies #[trigger] dot(m[k], x) == 0 by {
                assert(dot(n[k], x) == 0 && dot(n[i], x) == 0 && dot(n[j], x) == 0);
            }
        }
        if solves(m, x) {
            assert forall|k: int| 0 <= k < n.len() implies #[trigger] dot(n[k], x) == 0 by {
                assert(dot(m[k], x) == 0 && dot(m[i], x) == 0 && dot(m[j], x) == 0);
            }
        }
    }
}

proof fn lemma_scale(m: Seq<Seq<u8>>, i: int, k: u8, width: nat)
    requires
        0 <= i < m.len(),
        m[i].len() == width,
        k != 0,
    ensures
        same_kernel(m.update(i, scaled(k, m[i])), m, width),
{
    let n = m.update(i, scaled(k, m[i]));
    assert forall|x: Seq<u8>| x.len() == width implies (#[trigger] solves(n, x) <==> solves(m, x)) by {
        lemma_dot_scaled(k, m[i], x);
        lemma_product_zero(k);
        if solves(n, x) {
            assert forall|r: int| 0 <= r < m.len() implies #[trigger] dot(m[r], x) == 0 by {
                assert(dot(n[r], x) == 0);
                if r == i {
                    lemma_no_zero_divisors(k, dot(m[i], x));
                }
            }
        }
        if solves(m, x) {
            assert forall|r: int| 0 <= r < n.len() implies #[trigger] dot(n[r], x) == 0 by {
                assert(dot(m[r], x) == 0);
            }
        }
    }
}

proof fn lemma_combine(m: Seq<Seq<u8>>, i: int, f: u8, s: int, width: nat)
    requires
        0 <= i < m.len(),
        0 <= s < m.len(),
        i != s,
        m[i].len() == width,
        m[s].len() == width,
    ensures
        same_kernel(m.update(i, combined(m[i], f, m[s])), m, width),
{
    let n = m.update(i, combined(m[i], f, m[s]));
    assert forall|x: Seq<u8>| x.len() == width implies (#[trigger] solves(n, x) <==> solves(m, x)) by {
        lemma_dot_combined(m[i], f, m[s], x);
        lemma_product_zero(f);
        lemma_sums(dot(m[i], x), 0, 0);
        if solves(n, x) {
            assert forall|r: int| 0 <= r < m.len() implies #[trigger] dot(m[r], x) == 0 by {
                assert(dot(n[r], x) == 0 && dot(n[s], x) == 0);
            }
        }
        if solves(m, x) {
            assert forall|r: int| 0 <= r < n.len() implies #[trigger] dot(n[r], x) == 0 by {
                assert(dot(m[r], x) == 0 && dot(m[s], x) == 0);
            }
        }
    }
}

proof fn lemma_kernel_chain(a: Seq<Seq<u8>>, b: Seq<Seq<u8>>, c: Seq<Seq<u8>>, width: nat)
    requires
        same_kernel(a, b, width),
        same_kernel(b, c, width),
    ensures
        same_kernel(a, c, width),
{
    assert forall|x: Seq<u8>| x.len() == width implies (#[trigger] solves(a, x) <==> solves(c, x)) by {
        assert(solves(b, x) <==> solves(c, x));
    }
}

/// A matrix whose column cannot be reduced is singular.
proof fn lemma_no_pivot(m: Seq<Seq<u8>>, now: Seq<Seq<u8>>, at: int)
    requires
        shaped(m, m.len(), m.len()),
        shaped(now, m.len(), 2 * m.len()),
        same_kernel(now, extended(m), 2 * m.len()),
        reduced(now, at),
        0 <= at < m.len(),
        forall|i: int| at <= i < m.len() ==> (#[trigger] now[i])[at] == 0,
    ensures
        singular(m),
{
    let n = m.len();
    let x = Seq::new(
        n,
        |k: int|
            if k < at {
                now[k][at]
            } else if k == at {
                1u8
            } else {
                0u8
            },
    );
    let tail = Seq::new(n, |k: int| 0u8);
    let long = x + tail;
    assert forall|i: int| 0 <= i < n implies #[trigger] dot(now[i], long) == 0 by {
        let row = now[i];
        assert forall|k: int| 0 <= k < row.len() && k != at && (i >= at || k != i) implies
            #[trigger] product(row[k], long[k]) == 0 by {
            lemma_product_zero(row[k]);
            lemma_product_zero(long[k]);
            if k < at {
                assert(now[i][k] == 0);
            }
        }
        lemma_product_one(row[at]);
        if i < at {
            lemma_dot_two(row, long, i, at);
            assert(now[i][i] == 1);
            lemma_product_one(long[i]);
            lemma_sums(row[at], row[at], 0);
        } else {
            lemma_dot_one(row, long, at);
        }
    }
    assert(solves(now, long));
    assert(solves(extended(m), long));
    assert forall|i: int| 0 <= i < n implies apply(m, x)[i] == 0 by {
        assert(dot(extended(m)[i], long) == 0);
        lemma_dot_parts(m[i], unit(n, i), x, tail);
        lemma_dot_unit(n, i, tail);
        lemma_sums(dot(m[i], x), 0, 0);
    }
    assert(x[at] == 1);
    assert(x.len() == m.len() && !all_zero(x) && all_zero(apply(m, x)));
}

/// What stands on the right of a reduced matrix is the inverse.
proof fn lemma_reduced_is_inverse(m: Seq<Seq<u8>>, now: Seq<Seq<u8>>, inverse: Seq<Seq<u8>>)
    requires
        shaped(m, m.len(), m.len()),
        shaped(now, m.len(), 2 * m.len()),
        same_kernel(now, extended(m), 2 * m.len()),
        reduced(now, m.len() as int),
        inverse.len() == m.len(),
        forall|i: int|
            0 <= i < m.len() ==> #[trigger] inverse[i] == now[i].subrange(
                m.len() as int,
                2 * m.len() as int,
            ),
    ensures
        inverses(m, inverse),
{
    let n = m.len();
    assert forall|i: int| 0 <= i < n implies #[trigger] now[i] == unit(n, i) + inverse[i] by {
        assert forall|j: int| 0 <= j < n implies #[trigger] now[i][j] == unit(n, i)[j] by {}
        assert(now[i] =~= unit(n, i) + inverse[i]);
    }
    assert forall|x: Seq<u8>| x.len() == n implies apply(inverse, #[trigger] apply(m, x)) == x by {
        let z = apply(m, x);
        assert forall|i: int| 0 <= i < n implies #[trigger] dot(extended(m)[i], x + z) == 0 by {
            lemma_dot_parts(m[i], unit(n, i), x, z);
            lemma_dot_unit(n, i, z);
            lemma_sums(z[i], z[i], 0);
        }
        assert(solves(extended(m), x + z));
        assert(solves(now, x + z));
        assert forall|i: int| 0 <= i < n implies apply(inverse, z)[i] == x[i] by {
            assert(dot(now[i], x + z) == 0);
            lemma_dot_parts(unit(n, i), inverse[i], x, z);
            lemma_dot_unit(n, i, x);
            lemma_sums(x[i], dot(inverse[i], z), 0);
        }
        assert(apply(inverse, z) =~= x);
    }
    assert forall|x: Seq<u8>| x.len() == n implies apply(m, #[trigger] apply(inverse, x)) == x by {
        let w = apply(inverse, x);
        assert forall|i: int| 0 <= i < n implies #[trigger] dot(now[i], w + x) == 0 by {
            lemma_dot_parts(unit(n, i), inverse[i], w, x);
            lemma_dot_unit(n, i, w);
            lemma_sums(w[i], w[i], 0);
        }
        assert(solves(now, w + x));
        assert(solves(extended(m), w + x));
        assert forall|i: int| 0 <= i < n implies apply(m, w)[i] == x[i] by {
            assert(dot(extended(m)[i], w + x) == 0);
            lemma_dot_parts(m[i], unit(n, i), w, x);
            lemma_dot_unit(n, i, x);
            lemma_sums(dot(m[i], w), x[i], 0);
        }
        assert(apply(m, w) =~= x);
    }
}

/// A matrix with an inverse is not singular.
pub proof fn law_inverse_excludes_singular(m: Seq<Seq<u8>>, inverse: Seq<Seq<u8>>)
    requires
        inverses(m, inverse),
        shaped(inverse, m.len(), m.len()),
    ensures
        !singular(m),
{
    if singular(m) {
        let x = choose|x: Seq<u8>|
            x.len() == m.len() && !all_zero(x) && all_zero(#[trigger] apply(m, x));
        let z = apply(m, x);
        assert(apply(inverse, z) == x);
        assert forall|i: int| 0 <= i < x.len() implies x[i] == 0 by {
            assert forall|k: int| 0 <= k < inverse[i].len() implies #[trigger] product(
                inverse[i][k],
                z[k],
            ) == 0 by {
                lemma_product_zero(inverse[i][k]);
                assert(z[k] == 0);
            }
            lemma_dot_zero(inverse[i], z);
            assert(apply(inverse, z)[i] == x[i]);
        }
    }
}

/// Row `r` plus `f` times row `s`.
fn combine_rows(r: &Vec<u8>, f: u8, s: &Vec<u8>) -> (row: Vec<u8>)
    requires
        r@.len() == s@.len(),
    ensures
        row@ == combined(r@, f, s@),
{
    let mut row: Vec<u8> = Vec::new();
    let mut i: usize = 0;
    while i < r.len()
        invariant
            i <= r@.len(),
            r@.len() == s@.len(),
            row@ == combined(r@, f, s@).take(i as int),
        decreases r@.len() - i,
    {
        row.push(r[i] ^ gf_mul(f, s[i]));
        i = i + 1;
        proof {
            assert(row@ =~= combined(r@, f, s@).take(i as int));
        }
    }
    proof {
        assert(row@ =~= combined(r@, f, s@));
    }
    row
}

/// A row times `k`.
fn scale_row(k: u8, r: &Vec<u8>) -> (row: Vec<u8>)
    ensures
        row@ == scaled(k, r@),
{
    let mut row: Vec<u8> = Vec::new();
    let mut i: usize = 0;
    while i < r.len()
        invariant
            i <= r@.len(),
            row@ == scaled(k, r@).take(i as int),
        decreases r@.len() - i,
    {
        row.push(gf_mul(k, r[i]));
        i = i + 1;
        proof {
            assert(row@ =~= scaled(k, r@).take(i as int));
        }
    }
    proof {
        assert(row@ =~= scaled(k, r@));
    }
    row
}

/// The row with a unit row on its right.
fn extended_row(row: &Vec<u8>, at: usize) -> (long: Vec<u8>)
    requires
        at < row@.len(),
    ensures
        long@ == row@ + unit(row@.len(), at as int),
{
    let n: usize = row.len();
    let mut long: Vec<u8> = Vec::new();
    crate::bytes::push_all(&mut long, row.as_slice());
    let mut i: usize = 0;
    while i < n
        invariant
            i <= n,
            n == row@.len(),
            long@ == row@ + unit(n as nat, at as int).take(i as int),
        decreases n - i,
    {
        long.push(
            if i == at {
                1u8
            } else {
                0u8
            },
        );
        i = i + 1;
        proof {
            assert(long@ =~= row@ + unit(n as nat, at as int).take(i as int));
        }
    }
    proof {
        assert(unit(n as nat, at as int).take(n as int) =~= unit(n as nat, at as int));
    }
    long
}

/// The first row from `from` on with something other than zero in the column.
fn find_pivot(m: &Vec<Vec<u8>>, from: usize, column: usize) -> (pivot: Option<usize>)
    requires
        from <= m@.len(),
        forall|i: int| 0 <= i < m@.len() ==> column < (#[trigger] m@[i])@.len(),
    ensures
        match pivot {
            Some(p) => from <= p < m@.len() && m@[p as int]@[column as int] != 0 && forall|i: int|
                from <= i < p ==> (#[trigger] m@[i])@[column as int] == 0,
            None => forall|i: int|
                from <= i < m@.len() ==> (#[trigger] m@[i])@[column as int] == 0,
        },
{
    let mut row: usize = from;
    while row < m.len()
        invariant
            from <= row <= m@.len(),
            forall|i: int| 0 <= i < m@.len() ==> column < (#[trigger] m@[i])@.len(),
            forall|i: int| from <= i < row ==> (#[trigger] m@[i])@[column as int] == 0,
        decreases m@.len() - row,
    {
        assert(column < m@[row as int]@.len());
        if m[row][column] != 0 {
            return Some(row);
        }
        row = row + 1;
    }
    None
}

/// Makes the column that of the unit matrix, with the pivot row swapped into place.
fn reduce_column(m: &mut Vec<Vec<u8>>, column: usize, pivot: usize)
    requires
        column <= pivot < old(m)@.len(),
        shaped(rows(old(m)@), old(m)@.len(), 2 * old(m)@.len()),
        reduced(rows(old(m)@), column as int),
        old(m)@[pivot as int]@[column as int] != 0,
    ensures
        final(m)@.len() == old(m)@.len(),
        shaped(rows(final(m)@), old(m)@.len(), 2 * old(m)@.len()),
        same_kernel(rows(final(m)@), rows(old(m)@), 2 * old(m)@.len()),
        reduced(rows(final(m)@), column + 1),
{
    let n: usize = m.len();
    let ghost width = 2 * n as nat;
    let ghost start = rows(m@);
    assert(start[pivot as int].len() == width && start[column as int].len() == width);
    assert(start[pivot as int] == m@[pivot as int]@);
    let upper = scale_row(1, &m[column]);
    let value: u8 = m[pivot][column];
    let scale: u8 = gf_inv(value);
    let lower = scale_row(scale, &m[pivot]);
    m.set(pivot, upper);
    m.set(column, lower);
    let ghost swapped = start.update(column as int, start[pivot as int]).update(
        pivot as int,
        start[column as int],
    );
    proof {
        assert(scaled(1, start[column as int]) =~= start[column as int]) by {
            assert forall|k: int| 0 <= k < width implies scaled(1, start[column as int])[k]
                == start[column as int][k] by {
                lemma_product_one(start[column as int][k]);
            }
        }
        lemma_swap(start, column as int, pivot as int, width);
        assert(swapped[column as int] == start[pivot as int]);
        if scale == 0 {
            lemma_product_zero(value);
        }
        lemma_scale(swapped, column as int, scale, width);
        assert(rows(m@) =~= swapped.update(
            column as int,
            scaled(scale, swapped[column as int]),
        ));
        lemma_kernel_chain(rows(m@), swapped, start, width);
        let now = rows(m@);
        assert forall|i: int, j: int| 0 <= i < n && 0 <= j < column implies #[trigger] now[i][j]
            == if i == j {
            1u8
        } else {
            0u8
        } by {
            assert(start[i][j] == if i == j {
                1u8
            } else {
                0u8
            });
            assert(start[pivot as int][j] == 0 && start[column as int][j] == 0);
            lemma_product_zero(scale);
        }
        assert(now[column as int][column as int] == 1);
    }
    let mut row: usize = 0;
    while row < n
        invariant
            row <= n,
            n == m@.len(),
            column < n,
            width == 2 * n,
            start.len() == n,
            shaped(rows(m@), n as nat, width),
            same_kernel(rows(m@), start, width),
            reduced(rows(m@), column as int),
            rows(m@)[column as int][column as int] == 1,
            forall|i: int|
                0 <= i < row && i != column ==> (#[trigger] rows(m@)[i])[column as int] == 0,
        decreases n - row,
    {
        let ghost before = rows(m@);
        assert(before[row as int].len() == width && before[column as int].len() == width);
        assert(before[row as int] == m@[row as int]@ && before[column as int] == m@[column as int]@);
        if row != column {
            let factor: u8 = m[row][column];
            let fresh = combine_rows(&m[row], factor, &m[column]);
            m.set(row, fresh);
            proof {
                lemma_combine(before, row as int, factor, column as int, width);
                assert(rows(m@) =~= before.update(
                    row as int,
                    combined(before[row as int], factor, before[column as int]),
                ));
                lemma_kernel_chain(rows(m@), before, start, width);
                lemma_product_one(factor);
                lemma_sums(factor, factor, 0);
                assert forall|j: int| 0 <= j < column implies #[trigger] rows(m@)[row as int][j]
                    == before[row as int][j] by {
                    assert(before[column as int][j] == 0);
                    lemma_product_zero(factor);
                    lemma_sums(before[row as int][j], 0, 0);
                }
                assert(rows(m@)[row as int][column as int] == 0);
                assert forall|i: int, j: int| 0 <= i < n && 0 <= j < column implies #[trigger] rows(
                    m@,
                )[i][j] == if i == j {
                    1u8
                } else {
                    0u8
                } by {
                    assert(before[i][j] == if i == j {
                        1u8
                    } else {
                        0u8
                    });
                }
            }
        }
        row = row + 1;
    }
}

/// The inverse of a square matrix, found by elimination.
pub fn invert(input: &Vec<Vec<u8>>) -> (result: Result<Vec<Vec<u8>>, EcError>)
    requires
        2 * input@.len() <= usize::MAX,
    ensures
        match result {
            Ok(inverse) => {
                &&& shaped(rows(input@), input@.len(), input@.len())
                &&& shaped(rows(inverse@), input@.len(), input@.len())
                &&& inverses(rows(input@), rows(inverse@))
            },
            Err(error) => {
                &&& error == EcError::SingularMatrix
                &&& !shaped(rows(input@), input@.len(), input@.len()) || singular(rows(input@))
            },
        },
{
    let n: usize = input.len();
    let ghost m = rows(input@);
    let ghost width = 2 * n as nat;
    let mut augmented: Vec<Vec<u8>> = Vec::new();
    let mut row: usize = 0;
    while row < n
        invariant
            row <= n,
            n == input@.len(),
            m == rows(input@),
            augmented@.len() == row,
            forall|i: int| 0 <= i < row ==> (#[trigger] m[i]).len() == n,
            forall|i: int|
                0 <= i < row ==> (#[trigger] augmented@[i])@ == m[i] + unit(n as nat, i),
        decreases n - row,
    {
        if input[row].len() != n {
            assert(m[row as int].len() != n);
            return Err(EcError::SingularMatrix);
        }
        let long = extended_row(&input[row], row);
        augmented.push(long);
        row = row + 1;
    }
    proof {
        assert(rows(augmented@) =~= extended(m));
    }
    let mut column: usize = 0;
    while column < n
        invariant
            column <= n,
            n == input@.len(),
            2 * n <= usize::MAX,
            m == rows(input@),
            width == 2 * n,
            shaped(m, n as nat, n as nat),
            augmented@.len() == n,
            shaped(rows(augmented@), n as nat, width),
            same_kernel(rows(augmented@), extended(m), width),
            reduced(rows(augmented@), column as int),
        decreases n - column,
    {
        let ghost before = rows(augmented@);
        proof {
            assert forall|i: int| 0 <= i < augmented@.len() implies column < (
            #[trigger] augmented@[i])@.len() by {
                assert(before[i].len() == width);
            }
        }
        match find_pivot(&augmented, column, column) {
            None => {
                proof {
                    assert forall|i: int| column <= i < n implies (#[trigger] before[i])[column as int]
                        == 0 by {
                        assert(augmented@[i]@[column as int] == 0);
                    }
                    lemma_no_pivot(m, before, column as int);
                }
                return Err(EcError::SingularMatrix);
            },
            Some(pivot) => {
                reduce_column(&mut augmented, column, pivot);
                proof {
                    lemma_kernel_chain(rows(augmented@), before, extended(m), width);
                }
            },
        }
        column = column + 1;
    }
    let mut inverse: Vec<Vec<u8>> = Vec::new();
    let mut i: usize = 0;
    while i < n
        invariant
            i <= n,
            2 * n <= usize::MAX,
            width == 2 * n,
            augmented@.len() == n,
            shaped(rows(augmented@), n as nat, width),
            inverse@.len() == i,
            forall|k: int|
                0 <= k < i ==> (#[trigger] inverse@[k])@ == rows(augmented@)[k].subrange(
                    n as int,
                    2 * n as int,
                ),
        decreases n - i,
    {
        assert(rows(augmented@)[i as int].len() == width);
        let part = crate::bytes::copy_range(augmented[i].as_slice(), n, 2 * n);
        inverse.push(part);
        i = i + 1;
    }
    proof {
        assert forall|k: int| 0 <= k < n implies #[trigger] rows(inverse@)[k] == rows(
            augmented@,
        )[k].subrange(n as int, 2 * n as int) by {
            assert(inverse@[k]@ == rows(inverse@)[k]);
        }
        lemma_reduced_is_inverse(m, rows(augmented@), rows(inverse@));
        assert forall|k: int| 0 <= k < n implies (#[trigger] rows(inverse@)[k]).len() == n by {
            assert(rows(augmented@)[k].len() == width);
        }
    }
    Ok(inverse)
}

} // verus!
