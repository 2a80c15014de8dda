//! Field laws of GF(2^8) as the secret sharing computes it: xor is the sum,
//! `gf_product` the product, `gf_power(b, 254)` the inverse of a nonzero `b`.

use vstd::prelude::*;
use crate::shamir::{bit_term, gf_power, gf_product, xtime};

verus! {

/// Xor is a commutative group in which every element is its own opposite.
pub proof fn lemma_xor_laws(a: u8, b: u8, c: u8, d: u8)
    ensures
        a ^ b == b ^ a,
        (a ^ b) ^ c == a ^ (b ^ c),
        (a ^ b) ^ (c ^ d) == (a ^ c) ^ (b ^ d),
        0u8 ^ a == a,
        a ^ 0u8 == a,
        a ^ a == 0u8,
        (a ^ c == b ^ c) ==> a == b,
{
    assert(
        a ^ b == b ^ a
        && (a ^ b) ^ c == a ^ (b ^ c)
        && (a ^ b) ^ (c ^ d) == (a ^ c) ^ (b ^ d)
        && 0u8 ^ a == a
        && a ^ 0u8 == a
        && a ^ a == 0u8
        && ((a ^ c == b ^ c) ==> a == b)
    ) by (bit_vector);
}

/// The product is commutative.
#[verifier::rlimit(100)]
pub proof fn lemma_gf_comm(a: u8, b: u8)
    ensures
        gf_product(a, b) == gf_product(b, a),
{
    assert(gf_product(a, b) == gf_product(b, a)) by (bit_vector);
}

/// The product distributes over xor.
pub proof fn lemma_gf_distrib(a: u8, b: u8, c: u8)
    ensures
        gf_product(a, b ^ c) == gf_product(a, b) ^ gf_product(a, c),
        gf_product(b ^ c, a) == gf_product(b, a) ^ gf_product(c, a),
{
    assert(gf_product(a, b ^ c) == gf_product(a, b) ^ gf_product(a, c)) by (bit_vector);
    lemma_gf_comm(a, b ^ c);
    lemma_gf_comm(a, b);
    lemma_gf_comm(a, c);
}

/// 1 is neutral and 0 absorbing.
pub proof fn lemma_gf_unit(a: u8)
    ensures
        gf_product(a, 1) == a,
        gf_product(1, a) == a,
        gf_product(a, 0) == 0,
        gf_product(0, a) == 0,
{
    assert(gf_product(a, 1) == a && gf_product(1, a) == a && gf_product(a, 0) == 0 && gf_product(0, a) == 0)
        by (bit_vector);
}

/// Multiplying by x commutes with the product.
#[verifier::rlimit(100)]
proof fn lemma_gf_xtime(a: u8, b: u8)
    ensures
        gf_product(xtime(a), b) == xtime(gf_product(a, b)),
{
    assert(gf_product(xtime(a), b) == xtime(gf_product(a, b))) by (bit_vector);
}

/// (a b) c = (a c) b: both are the sum over the bits k of c of
/// (a x^k) b.
proof fn lemma_gf_swap_right(a: u8, b: u8, c: u8)
    ensures
        gf_product(gf_product(a, b), c) == gf_product(gf_product(a, c), b),
{
    let a1 = xtime(a);
    let a2 = xtime(a1);
    let a3 = xtime(a2);
    let a4 = xtime(a3);
    let a5 = xtime(a4);
    let a6 = xtime(a5);
    let a7 = xtime(a6);
    let p = gf_product(a, b);
    lemma_gf_xtime(a, b);
    lemma_gf_xtime(a1, b);
    lemma_gf_xtime(a2, b);
    lemma_gf_xtime(a3, b);
    lemma_gf_xtime(a4, b);
    lemma_gf_xtime(a5, b);
    lemma_gf_xtime(a6, b);
    let p1 = xtime(p);
    let p2 = xtime(p1);
    let p3 = xtime(p2);
    let p4 = xtime(p3);
    let p5 = xtime(p4);
    let p6 = xtime(p5);
    let p7 = xtime(p6);
    assert(p1 == gf_product(a1, b));
    assert(p2 == gf_product(a2, b));
    assert(p3 == gf_product(a3, b));
    assert(p4 == gf_product(a4, b));
    assert(p5 == gf_product(a5, b));
    assert(p6 == gf_product(a6, b));
    assert(p7 == gf_product(a7, b));
    let t0 = bit_term(a, c, 0);
    let t1 = bit_term(a1, c, 1);
    let t2 = bit_term(a2, c, 2);
    let t3 = bit_term(a3, c, 3);
    let t4 = bit_term(a4, c, 4);
    let t5 = bit_term(a5, c, 5);
    let t6 = bit_term(a6, c, 6);
    let t7 = bit_term(a7, c, 7);
    lemma_gf_unit(b);
    assert(gf_product(t0, b) == bit_term(p, c, 0));
    assert(gf_product(t1, b) == bit_term(p1, c, 1));
    assert(gf_product(t2, b) == bit_term(p2, c, 2));
    assert(gf_product(t3, b) == bit_term(p3, c, 3));
    assert(gf_product(t4, b) == bit_term(p4, c, 4));
    assert(gf_product(t5, b) == bit_term(p5, c, 5));
    assert(gf_product(t6, b) == bit_term(p6, c, 6));
    assert(gf_product(t7, b) == bit_term(p7, c, 7));
    let s1 = t0 ^ t1;
    let s2 = s1 ^ t2;
    let s3 = s2 ^ t3;
    let s4 = s3 ^ t4;
    let s5 = s4 ^ t5;
    let s6 = s5 ^ t6;
    let s7 = s6 ^ t7;
    assert(gf_product(a, c) == s7);
    lemma_gf_distrib(b, t0, t1);
    lemma_gf_distrib(b, s1, t2);
    lemma_gf_distrib(b, s2, t3);
    lemma_gf_distrib(b, s3, t4);
    lemma_gf_distrib(b, s4, t5);
    lemma_gf_distrib(b, s5, t6);
    lemma_gf_distrib(b, s6, t7);
}

/// The product is associative.
pub proof fn lemma_gf_assoc(a: u8, b: u8, c: u8)
    ensures
        gf_product(gf_product(a, b), c) == gf_product(a, gf_product(b, c)),
{
    // a (b c) = (b c) a = (b a) c = (a b) c
    lemma_gf_comm(a, gf_product(b, c));
    lemma_gf_swap_right(b, c, a);
    lemma_gf_comm(b, a);
}

/// x^(m + n) = x^m x^n.
pub proof fn lemma_power_add(x: u8, m: nat, n: nat)
    ensures
        gf_power(x, m + n) == gf_product(gf_power(x, m), gf_power(x, n)),
    decreases n,
{
    if n == 0 {
        lemma_gf_unit(gf_power(x, m));
        assert(m + n == m);
    } else {
        lemma_power_add(x, m, (n - 1) as nat);
        assert((m + n - 1) as nat == m + (n - 1) as nat);
        lemma_gf_assoc(gf_power(x, m), gf_power(x, (n - 1) as nat), x);
    }
}

/// Fermat: b^255 = 1 for a nonzero b, so b^254 is the inverse of b.
#[verifier::rlimit(100)]
pub proof fn lemma_gf_inverse(b: u8)
    requires
        b != 0,
    ensures
        gf_product(b, gf_power(b, 254)) == 1,
        gf_product(gf_power(b, 254), b) == 1,
{
    lemma_gf_unit(b);
    assert(gf_power(b, 1) == b) by {
        assert(gf_power(b, 0) == 1);
    }
    let s1 = gf_power(b, 2);
    assert(s1 == gf_product(b, b));
    lemma_power_add(b, 2, 2);
    let s2 = gf_power(b, 4);
    lemma_power_add(b, 4, 4);
    let s3 = gf_power(b, 8);
    lemma_power_add(b, 8, 8);
    let s4 = gf_power(b, 16);
    lemma_power_add(b, 16, 16);
    let s5 = gf_power(b, 32);
    lemma_power_add(b, 32, 32);
    let s6 = gf_power(b, 64);
    lemma_power_add(b, 64, 64);
    let s7 = gf_power(b, 128);
    lemma_power_add(b, 2, 4);
    let e6 = gf_power(b, 6);
    lemma_power_add(b, 6, 8);
    let e14 = gf_power(b, 14);
    lemma_power_add(b, 14, 16);
    let e30 = gf_power(b, 30);
    lemma_power_add(b, 30, 32);
    let e62 = gf_power(b, 62);
    lemma_power_add(b, 62, 64);
    let e126 = gf_power(b, 126);
    lemma_power_add(b, 126, 128);
    let e254 = gf_power(b, 254);
    assert(gf_product(b, e254) == 1) by (bit_vector)
        requires
            b != 0,
            s1 == gf_product(b, b),
            s2 == gf_product(s1, s1),
            s3 == gf_product(s2, s2),
            s4 == gf_product(s3, s3),
            s5 == gf_product(s4, s4),
            s6 == gf_product(s5, s5),
            s7 == gf_product(s6, s6),
            e6 == gf_product(s1, s2),
            e14 == gf_product(e6, s3),
            e30 == gf_product(e14, s4),
            e62 == gf_product(e30, s5),
            e126 == gf_product(e62, s6),
            e254 == gf_product(e126, s7),
    ;
    lemma_gf_comm(b, e254);
}

/// z (u v) = u (z v).
pub proof fn lemma_gf_left_comm(z: u8, u: u8, v: u8)
    ensures
        gf_product(z, gf_product(u, v)) == gf_product(u, gf_product(z, v)),
{
    lemma_gf_assoc(z, u, v);
    lemma_gf_comm(z, u);
    lemma_gf_assoc(u, z, v);
}

/// A nonzero factor cancels: its inverse undoes it.
pub proof fn lemma_gf_cancel(a: u8, x: u8, y: u8)
    requires
        a != 0,
        gf_product(a, x) == gf_product(a, y),
    ensures
        x == y,
{
    let i = gf_power(a, 254);
    lemma_gf_inverse(a);
    lemma_gf_assoc(i, a, x);
    lemma_gf_assoc(i, a, y);
    lemma_gf_unit(x);
    lemma_gf_unit(y);
}

/// The inverse of a product is the product of the inverses.
pub proof fn lemma_gf_inverse_product(u: u8, v: u8)
    requires
        u != 0,
        v != 0,
    ensures
        gf_power(gf_product(u, v), 254) == gf_product(gf_power(u, 254), gf_power(v, 254)),
{
    let uv = gf_product(u, v);
    let iu = gf_power(u, 254);
    let iv = gf_power(v, 254);
    let w = gf_product(iu, iv);
    crate::shamir::lemma_product_nonzero(u, v);
    lemma_gf_inverse(u);
    lemma_gf_inverse(v);
    lemma_gf_inverse(uv);
    // (u v)(iu iv) = (u iu)(v iv) = 1
    lemma_gf_assoc(u, v, w);
    lemma_gf_left_comm(v, iu, iv);
    lemma_gf_assoc(u, iu, gf_product(v, iv));
    lemma_gf_unit(1);
    assert(gf_product(uv, w) == 1);
    lemma_gf_cancel(uv, gf_power(uv, 254), w);
}

/// (a b)(c d) = (a c)(b d).
pub proof fn lemma_gf_swap4(a: u8, b: u8, c: u8, d: u8)
    ensures
        gf_product(gf_product(a, b), gf_product(c, d)) == gf_product(gf_product(a, c), gf_product(b, d)),
{
    lemma_gf_assoc(a, b, gf_product(c, d));
    lemma_gf_left_comm(b, c, d);
    lemma_gf_assoc(a, c, gf_product(b, d));
}

} // verus!
