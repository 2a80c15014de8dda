//! Polynomials over GF(2^8) and the correctness of Lagrange interpolation at
//! 0: through as many distinct points as the polynomial has coefficients,
//! the interpolated value is the constant term. Hence any `threshold`
//! distinct shares of a split secret give the secret back.

use vstd::prelude::*;
use crate::gf256::{
    lemma_gf_assoc, lemma_gf_cancel, lemma_gf_comm, lemma_gf_distrib, lemma_gf_inverse, lemma_gf_inverse_product, lemma_gf_left_comm,
    lemma_gf_swap4, lemma_gf_unit, lemma_xor_laws,
};
use crate::shamir::{
    basis_denominator, basis_numerator, gf_power, gf_product, gf_quotient, lagrange_at_zero, lemma_denominator_nonzero, poly_value,
};

verus! {

/// Value at `z` of the polynomial with coefficients `p` (lowest degree
/// first), by Horner's rule.
pub open spec fn horner(p: Seq<u8>, z: u8) -> u8
    decreases p.len(),
{
    if p.len() == 0 {
        0
    } else {
        p[0] ^ gf_product(z, horner(p.drop_first(), z))
    }
}

/// Adding a top coefficient `a` adds a z^n.
proof fn lemma_horner_push(p: Seq<u8>, a: u8, z: u8)
    ensures
        horner(p.push(a), z) == horner(p, z) ^ gf_product(a, gf_power(z, p.len())),
    decreases p.len(),
{
    lemma_gf_unit(a);
    lemma_gf_unit(z);
    if p.len() == 0 {
        assert(p.push(a).drop_first() =~= Seq::<u8>::empty());
        assert(horner(Seq::<u8>::empty(), z) == 0);
        assert(p.push(a)[0] == a);
        lemma_xor_laws(a, 0, 0, 0);
        assert(gf_power(z, 0) == 1);
    } else {
        let p1 = p.drop_first();
        assert(p.push(a).drop_first() =~= p1.push(a));
        assert(p.push(a)[0] == p[0]);
        lemma_horner_push(p1, a, z);
        let h1 = horner(p1, z);
        let w = gf_power(z, p1.len());
        lemma_gf_distrib(z, h1, gf_product(a, w));
        // z (a w) = a (w z) = a z^n
        lemma_gf_left_comm(z, a, w);
        lemma_gf_comm(z, w);
        assert(gf_power(z, p.len()) == gf_product(w, z));
        lemma_xor_laws(p[0], gf_product(z, h1), gf_product(a, gf_power(z, p.len())), 0);
    }
}

/// The shares' evaluation is Horner's.
pub proof fn lemma_poly_value_is_horner(p: Seq<u8>, x: u8)
    ensures
        poly_value(p, x) == horner(p, x),
    decreases p.len(),
{
    if p.len() > 0 {
        let p0 = p.drop_last();
        lemma_poly_value_is_horner(p0, x);
        assert(p0.push(p.last()) =~= p);
        lemma_horner_push(p0, p.last(), x);
    }
}

/// Quotient of `p` by (z - c), lowest degree first.
pub open spec fn divide(p: Seq<u8>, c: u8) -> Seq<u8>
    decreases p.len(),
{
    if p.len() <= 1 {
        Seq::empty()
    } else {
        seq![horner(p.drop_first(), c)] + divide(p.drop_first(), c)
    }
}

/// p(z) = p(c) + (z - c) q(z) with q = divide(p, c), one coefficient shorter.
pub proof fn lemma_division(p: Seq<u8>, c: u8, z: u8)
    ensures
        horner(p, z) == horner(p, c) ^ gf_product(z ^ c, horner(divide(p, c), z)),
        divide(p, c).len() == if p.len() == 0 { 0 } else { p.len() - 1 },
    decreases p.len(),
{
    lemma_gf_unit(z ^ c);
    lemma_gf_unit(z);
    lemma_gf_unit(c);
    let e = Seq::<u8>::empty();
    assert(horner(e, z) == 0 && horner(e, c) == 0);
    if p.len() == 0 {
        lemma_xor_laws(0, 0, 0, 0);
        assert(divide(p, c) =~= e);
    } else if p.len() == 1 {
        assert(p.drop_first() =~= e);
        assert(divide(p, c) =~= e);
        lemma_xor_laws(p[0], 0, 0, 0);
        assert(horner(p, z) == p[0]);
        assert(horner(p, c) == p[0]);
    } else {
        let a = p[0];
        let p1 = p.drop_first();
        lemma_division(p1, c, z);
        let e1z = horner(p1, z);
        let e1c = horner(p1, c);
        let q1 = divide(p1, c);
        let q1z = horner(q1, z);
        let q = divide(p, c);
        assert(q.drop_first() =~= q1);
        assert(horner(q, z) == e1c ^ gf_product(z, q1z));
        // z e1(z) = z e1(c) + z ((z - c) q1(z))
        lemma_gf_distrib(z, e1c, gf_product(z ^ c, q1z));
        // (z - c)(e1(c) + z q1(z)) = z e1(c) + c e1(c) + (z - c)(z q1(z))
        lemma_gf_distrib(z ^ c, e1c, gf_product(z, q1z));
        lemma_gf_distrib(e1c, z, c);
        lemma_gf_left_comm(z, z ^ c, q1z);
        let ze = gf_product(z, e1c);
        let ce = gf_product(c, e1c);
        let t = gf_product(z ^ c, gf_product(z, q1z));
        assert(gf_product(z ^ c, e1c) == ze ^ ce) by {
            lemma_gf_comm(z ^ c, e1c);
            lemma_gf_comm(e1c, z);
            lemma_gf_comm(e1c, c);
        }
        assert(a ^ (ze ^ t) == (a ^ ce) ^ ((ze ^ ce) ^ t)) by (bit_vector);
        assert(horner(p, z) == a ^ gf_product(z, e1z));
        assert(horner(p, c) == a ^ ce);
    }
}

/// `s` with `a` added to its constant term.
pub open spec fn add_constant(s: Seq<u8>, a: u8) -> Seq<u8> {
    if s.len() == 0 { seq![a] } else { s.update(0, s[0] ^ a) }
}

proof fn lemma_add_constant(s: Seq<u8>, a: u8, z: u8)
    ensures
        horner(add_constant(s, a), z) == horner(s, z) ^ a,
        add_constant(s, a).len() == if s.len() == 0 { 1 } else { s.len() },
{
    let e = Seq::<u8>::empty();
    assert(horner(e, z) == 0);
    lemma_gf_unit(z);
    if s.len() == 0 {
        assert(add_constant(s, a).drop_first() =~= e);
        assert(add_constant(s, a)[0] == a);
        lemma_xor_laws(a, 0, 0, 0);
    } else {
        assert(add_constant(s, a).drop_first() =~= s.drop_first());
        let zh = gf_product(z, horner(s.drop_first(), z));
        assert(add_constant(s, a)[0] == s[0] ^ a);
        lemma_xor_laws(s[0], a, zh, 0);
        lemma_xor_laws(s[0], zh, a, 0);
        lemma_xor_laws(a, zh, 0, 0);
    }
}

/// Coefficients of (z - c) p(z).
pub open spec fn times_linear(p: Seq<u8>, c: u8) -> Seq<u8>
    decreases p.len(),
{
    if p.len() == 0 {
        Seq::empty()
    } else {
        seq![gf_product(c, p[0])] + add_constant(times_linear(p.drop_first(), c), p[0])
    }
}

proof fn lemma_times_linear(p: Seq<u8>, c: u8, z: u8)
    ensures
        horner(times_linear(p, c), z) == gf_product(z ^ c, horner(p, z)),
        times_linear(p, c).len() == if p.len() == 0 { 0 } else { p.len() + 1 },
    decreases p.len(),
{
    lemma_gf_unit(z ^ c);
    if p.len() > 0 {
        let a = p[0];
        let p1 = p.drop_first();
        lemma_times_linear(p1, c, z);
        let t1 = times_linear(p1, c);
        lemma_add_constant(t1, a, z);
        let x = add_constant(t1, a);
        let r = times_linear(p, c);
        assert(r.drop_first() =~= x);
        let h1 = horner(p1, z);
        // z ((z - c) h1 + a) = (z - c)(z h1) + z a
        lemma_gf_distrib(z, gf_product(z ^ c, h1), a);
        lemma_gf_left_comm(z, z ^ c, h1);
        // (z - c)(a + z h1) = z a + c a + (z - c)(z h1)
        lemma_gf_distrib(z ^ c, a, gf_product(z, h1));
        lemma_gf_distrib(a, z, c);
        lemma_gf_comm(z ^ c, a);
        lemma_gf_comm(a, z);
        lemma_gf_comm(a, c);
        let ca = gf_product(c, a);
        let za = gf_product(z, a);
        let t = gf_product(z ^ c, gf_product(z, h1));
        assert(ca ^ (t ^ za) == (za ^ ca) ^ t) by (bit_vector);
    }
}

/// Coefficients of the product of (z - xs[j]) over all j.
pub open spec fn roots_poly(xs: Seq<u8>) -> Seq<u8>
    decreases xs.len(),
{
    if xs.len() == 0 {
        seq![1u8]
    } else {
        times_linear(roots_poly(xs.drop_last()), xs.last())
    }
}

/// The product of (z - xs[j]) over all j, in order.
pub open spec fn roots_value(xs: Seq<u8>, z: u8) -> u8
    decreases xs.len(),
{
    if xs.len() == 0 {
        1
    } else {
        gf_product(roots_value(xs.drop_last(), z), z ^ xs.last())
    }
}

proof fn lemma_roots_poly(xs: Seq<u8>, z: u8)
    ensures
        horner(roots_poly(xs), z) == roots_value(xs, z),
        roots_poly(xs).len() == xs.len() + 1,
    decreases xs.len(),
{
    if xs.len() == 0 {
        let one = seq![1u8];
        assert(one.drop_first() =~= Seq::<u8>::empty());
        assert(horner(Seq::<u8>::empty(), z) == 0);
        lemma_gf_unit(z);
        lemma_xor_laws(1, 0, 0, 0);
    } else {
        let xs0 = xs.drop_last();
        lemma_roots_poly(xs0, z);
        lemma_times_linear(roots_poly(xs0), xs.last(), z);
        lemma_gf_comm(z ^ xs.last(), roots_value(xs0, z));
    }
}

/// The product vanishes at each of its roots.
proof fn lemma_roots_vanish(xs: Seq<u8>, i: int)
    requires
        0 <= i < xs.len(),
    ensures
        roots_value(xs, xs[i]) == 0,
    decreases xs.len(),
{
    let xs0 = xs.drop_last();
    lemma_xor_laws(xs[i], 0, 0, 0);
    lemma_gf_unit(roots_value(xs0, xs[i]));
    if i < xs.len() - 1 {
        assert(xs0[i] == xs[i]);
        lemma_roots_vanish(xs0, i);
        lemma_gf_unit(xs[i] ^ xs.last());
    }
}

/// And nowhere else.
proof fn lemma_roots_nonzero(xs: Seq<u8>, z: u8)
    requires
        forall|j: int| 0 <= j < xs.len() ==> xs[j] != z,
    ensures
        roots_value(xs, z) != 0,
    decreases xs.len(),
{
    if xs.len() > 0 {
        let xs0 = xs.drop_last();
        assert forall|j: int| 0 <= j < xs0.len() implies xs0[j] != z by {
            assert(xs0[j] == xs[j]);
        }
        lemma_roots_nonzero(xs0, z);
        let l = xs.last();
        assert(l != z);
        assert(z ^ l != 0) by (bit_vector)
            requires
                l != z,
        ;
        crate::shamir::lemma_product_nonzero(roots_value(xs0, z), z ^ l);
    }
}

/// The basis products depend only on the points they range over.
proof fn lemma_basis_prefix(a: Seq<u8>, b: Seq<u8>, i: int, k: int)
    requires
        0 <= k <= a.len(),
        k <= b.len(),
        forall|j: int| 0 <= j < k ==> a[j] == b[j],
    ensures
        basis_numerator(a, i, k) == basis_numerator(b, i, k),
        (0 <= i < a.len() && i < b.len() && a[i] == b[i]) ==> basis_denominator(a, i, k) == basis_denominator(b, i, k),
    decreases k,
{
    if k > 0 {
        lemma_basis_prefix(a, b, i, k - 1);
    }
}

/// Adding a point c multiplies the basis at an earlier point i by c over
/// (x_i - c).
proof fn lemma_basis_extend(xs0: Seq<u8>, c: u8, i: int)
    requires
        0 <= i < xs0.len(),
    ensures
        basis_numerator(xs0.push(c), i, xs0.len() as int + 1) == gf_product(basis_numerator(xs0, i, xs0.len() as int), c),
        basis_denominator(xs0.push(c), i, xs0.len() as int + 1)
            == gf_product(basis_denominator(xs0, i, xs0.len() as int), xs0[i] ^ c),
{
    let xs = xs0.push(c);
    let n0 = xs0.len() as int;
    assert forall|j: int| 0 <= j < n0 implies xs[j] == xs0[j] by {}
    lemma_basis_prefix(xs, xs0, i, n0);
    assert(xs[n0] == c);
    assert(xs[i] == xs0[i]);
}

/// At the added point c the basis is the product of the earlier points over
/// the product of (c - x_j).
proof fn lemma_basis_new_point(xs0: Seq<u8>, c: u8, k: int)
    requires
        0 <= k <= xs0.len(),
    ensures
        basis_numerator(xs0.push(c), xs0.len() as int, k) == roots_value(xs0.take(k), 0),
        basis_denominator(xs0.push(c), xs0.len() as int, k) == roots_value(xs0.take(k), c),
    decreases k,
{
    let xs = xs0.push(c);
    let n0 = xs0.len() as int;
    if k > 0 {
        lemma_basis_new_point(xs0, c, k - 1);
        let t = xs0.take(k);
        assert(t.drop_last() =~= xs0.take(k - 1));
        assert(t.last() == xs0[k - 1]);
        assert(xs[k - 1] == xs0[k - 1]);
        assert(xs[n0] == c);
        lemma_xor_laws(xs0[k - 1], 0, 0, 0);
    } else {
        assert(xs0.take(0) =~= Seq::<u8>::empty());
    }
}

/// The Lagrange weights at 0 of the points xs.
pub open spec fn weights(xs: Seq<u8>) -> Seq<u8> {
    Seq::new(
        xs.len(),
        |i: int| gf_quotient(basis_numerator(xs, i, xs.len() as int), basis_denominator(xs, i, xs.len() as int)),
    )
}

/// The points of xs are pairwise distinct.
pub open spec fn distinct_points(xs: Seq<u8>) -> bool {
    forall|i: int, j: int| 0 <= i < xs.len() && 0 <= j < xs.len() && i != j ==> xs[i] != xs[j]
}

/// (x_i - c) w'_i = c w_i, where w' are the weights once c is added.
proof fn lemma_weight_extend(xs0: Seq<u8>, c: u8, i: int)
    requires
        0 <= i < xs0.len(),
        distinct_points(xs0.push(c)),
    ensures
        gf_product(xs0[i] ^ c, weights(xs0.push(c))[i]) == gf_product(c, weights(xs0)[i]),
{
    let xs = xs0.push(c);
    let n0 = xs0.len() as int;
    lemma_basis_extend(xs0, c, i);
    let nn = basis_numerator(xs0, i, n0);
    let d = basis_denominator(xs0, i, n0);
    let xi = xs0[i];
    let e = xi ^ c;
    assert(xs[i] == xs0[i] && xs[n0] == c);
    assert(xi != c);
    assert(e != 0) by (bit_vector)
        requires
            e == xi ^ c,
            xi != c,
    ;
    assert forall|j: int| 0 <= j < xs0.len() && j != i implies xs0[i] != #[trigger] xs0[j] by {
        assert(xs[i] != xs[j]);
    }
    lemma_denominator_nonzero(xs0, i, n0);
    lemma_gf_inverse_product(d, e);
    let id = gf_power(d, 254);
    let ie = gf_power(e, 254);
    lemma_gf_inverse(e);
    // e ((nn c)(id ie)) = e ((nn id)(c ie)) = (nn id)(e (c ie)) = (nn id) c
    lemma_gf_swap4(nn, c, id, ie);
    lemma_gf_left_comm(e, gf_product(nn, id), gf_product(c, ie));
    lemma_gf_left_comm(e, c, ie);
    lemma_gf_unit(c);
    lemma_gf_comm(gf_product(nn, id), c);
}

/// Sum over the first `k` points of vals[i] * ws[i].
pub open spec fn weighted_sum(vals: Seq<u8>, ws: Seq<u8>, k: int) -> u8
    decreases k,
{
    if k <= 0 {
        0
    } else {
        weighted_sum(vals, ws, k - 1) ^ gf_product(vals[k - 1], ws[k - 1])
    }
}

/// Sum of the first `k` weights.
pub open spec fn weight_total(ws: Seq<u8>, k: int) -> u8
    decreases k,
{
    if k <= 0 {
        0
    } else {
        weight_total(ws, k - 1) ^ ws[k - 1]
    }
}

/// The values of `p` at the points `xs`.
pub open spec fn values_at(p: Seq<u8>, xs: Seq<u8>) -> Seq<u8> {
    Seq::new(xs.len(), |i: int| horner(p, xs[i]))
}

/// The interpolation that `reconstruct_secret` computes is a weighted sum.
pub proof fn lemma_lagrange_is_weighted_sum(xs: Seq<u8>, ys: Seq<u8>, k: int)
    requires
        0 <= k <= xs.len(),
    ensures
        lagrange_at_zero(xs, ys, k) == weighted_sum(ys, weights(xs), k),
    decreases k,
{
    if k > 0 {
        lemma_lagrange_is_weighted_sum(xs, ys, k - 1);
    }
}

proof fn lemma_weighted_sum_zero(vals: Seq<u8>, ws: Seq<u8>, k: int)
    requires
        forall|i: int| 0 <= i < k ==> vals[i] == 0,
    ensures
        weighted_sum(vals, ws, k) == 0,
    decreases k,
{
    if k > 0 {
        lemma_weighted_sum_zero(vals, ws, k - 1);
        lemma_gf_unit(ws[k - 1]);
        lemma_xor_laws(0, 0, 0, 0);
    }
}

/// Over the earlier points, the sum for p splits into p(c) times the sum of
/// the weights and c times the sum, without c, for p's quotient by (z - c).
proof fn lemma_sum_split(xs0: Seq<u8>, c: u8, p: Seq<u8>, k: int)
    requires
        0 <= k <= xs0.len(),
        distinct_points(xs0.push(c)),
    ensures
        weighted_sum(values_at(p, xs0.push(c)), weights(xs0.push(c)), k)
            == gf_product(horner(p, c), weight_total(weights(xs0.push(c)), k))
            ^ gf_product(c, weighted_sum(values_at(divide(p, c), xs0), weights(xs0), k)),
    decreases k,
{
    let xs = xs0.push(c);
    let w = weights(xs);
    let w0 = weights(xs0);
    let q = divide(p, c);
    let pc = horner(p, c);
    let vp = values_at(p, xs);
    let vq = values_at(q, xs0);
    if k == 0 {
        lemma_gf_unit(pc);
        lemma_gf_unit(c);
        lemma_xor_laws(0, 0, 0, 0);
    } else {
        let i = k - 1;
        lemma_sum_split(xs0, c, p, i);
        let xi = xs0[i];
        assert(xs[i] == xi);
        assert(vp[i] == horner(p, xi));
        assert(vq[i] == horner(q, xi));
        lemma_division(p, c, xi);
        let qi = horner(q, xi);
        let e = xi ^ c;
        lemma_weight_extend(xs0, c, i);
        let wi = w[i];
        let w0i = w0[i];
        // (pc + e qi) wi = pc wi + (e qi) wi
        lemma_gf_distrib(wi, pc, gf_product(e, qi));
        // (e qi) wi = qi (e wi) = qi (c w0i) = c (qi w0i)
        lemma_gf_comm(e, qi);
        lemma_gf_assoc(qi, e, wi);
        lemma_gf_left_comm(qi, c, w0i);
        let tp = weight_total(w, i);
        let sq = weighted_sum(vq, w0, i);
        lemma_gf_distrib(pc, tp, wi);
        lemma_gf_distrib(c, sq, gf_product(qi, w0i));
        lemma_xor_laws(gf_product(pc, tp), gf_product(c, sq), gf_product(pc, wi), gf_product(c, gf_product(qi, w0i)));
    }
}

/// Lagrange interpolation at 0 through distinct points recovers the
/// constant term of any polynomial with no more coefficients than points.
pub proof fn lemma_interpolation(xs: Seq<u8>, p: Seq<u8>)
    requires
        distinct_points(xs),
        p.len() <= xs.len(),
    ensures
        weighted_sum(values_at(p, xs), weights(xs), xs.len() as int) == horner(p, 0),
    decreases xs.len(),
{
    if xs.len() == 0 {
        assert(p =~= Seq::<u8>::empty());
    } else {
        let n = xs.len() as int;
        let xs0 = xs.drop_last();
        let c = xs.last();
        assert(xs0.push(c) =~= xs);
        assert(distinct_points(xs0)) by {
            assert forall|i: int, j: int| 0 <= i < xs0.len() && 0 <= j < xs0.len() && i != j implies xs0[i] != xs0[j] by {
                assert(xs0[i] == xs[i] && xs0[j] == xs[j]);
            }
        }
        assert forall|j: int| 0 <= j < xs0.len() implies xs0[j] != c by {
            assert(xs0[j] == xs[j] && c == xs[n - 1]);
        }
        let w = weights(xs);
        let last = w[n - 1];
        lemma_xor_laws(c, 0, 0, 0);
        lemma_gf_unit(c);
        // the weight at c: r(0) / r(c) with r the product of (z - x_j) over the other points
        lemma_basis_new_point(xs0, c, n - 1);
        assert(xs0.take(n - 1) =~= xs0);
        let r = roots_poly(xs0);
        lemma_roots_poly(xs0, 0);
        lemma_roots_poly(xs0, c);
        let r0 = roots_value(xs0, 0);
        let rc = roots_value(xs0, c);
        assert(last == gf_quotient(r0, rc));
        lemma_roots_nonzero(xs0, c);
        // the weights add up to 1
        let qr = divide(r, c);
        lemma_division(r, c, 0);
        lemma_interpolation(xs0, qr);
        lemma_sum_split(xs0, c, r, n - 1);
        assert forall|i: int| 0 <= i < n - 1 implies values_at(r, xs)[i] == 0 by {
            assert(xs[i] == xs0[i]);
            lemma_roots_poly(xs0, xs0[i]);
            lemma_roots_vanish(xs0, i);
        }
        lemma_weighted_sum_zero(values_at(r, xs), w, n - 1);
        let t = weight_total(w, n - 1);
        let cq = gf_product(c, horner(qr, 0));
        let rt = gf_product(rc, t);
        assert(rt ^ cq == 0);
        // rc * last = r0
        let irc = gf_power(rc, 254);
        lemma_gf_inverse(rc);
        lemma_gf_left_comm(rc, r0, irc);
        lemma_gf_unit(r0);
        assert(gf_product(rc, last) == r0);
        let s = weight_total(w, n);
        lemma_gf_distrib(rc, t, last);
        assert(r0 == rc ^ cq);
        assert(gf_product(rc, s) == rt ^ r0);
        assert(rt ^ (rc ^ cq) == rc) by (bit_vector)
            requires
                rt ^ cq == 0,
        ;
        lemma_gf_unit(rc);
        lemma_gf_cancel(rc, s, 1);
        // and so the sum for p is p(c) + c q(0) = p(0)
        let q = divide(p, c);
        let pc = horner(p, c);
        lemma_division(p, c, 0);
        lemma_interpolation(xs0, q);
        lemma_sum_split(xs0, c, p, n - 1);
        let vp = values_at(p, xs);
        assert(vp[n - 1] == pc);
        let cq2 = gf_product(c, horner(q, 0));
        let pt = gf_product(pc, t);
        let pl = gf_product(pc, last);
        lemma_gf_distrib(pc, t, last);
        lemma_gf_unit(pc);
        assert((pt ^ cq2) ^ pl == (pt ^ pl) ^ cq2) by (bit_vector);
    }
}

} // verus!
