//! Shamir secret sharing over GF(2^8), byte by byte, with the field taken
//! modulo the primitive polynomial x^8 + x^4 + x^3 + x^2 + 1 (0x11d).

use vstd::prelude::*;
use crate::gf256::{lemma_gf_unit, lemma_xor_laws};
use crate::interpolation::{
    distinct_points, horner, lemma_interpolation, lemma_lagrange_is_weighted_sum, lemma_poly_value_is_horner, values_at,
};
use crate::outside::os_random_bytes;

verus! {

/// Multiplication by x in GF(2^8): shift left, reduce by 0x11d on overflow.
pub open spec fn xtime(a: u8) -> u8 {
    if a & 0x80u8 == 0 {
        a << 1u8
    } else {
        (a << 1u8) ^ 0x1du8
    }
}

/// `a` if bit `k` of `b` is set, else 0.
pub open spec fn bit_term(a: u8, b: u8, k: u8) -> u8 {
    if (b >> k) & 1u8 == 1u8 { a } else { 0u8 }
}

/// Product of `a` and `b` in GF(2^8): the sum (xor) of a * x^k over the set
/// bits k of b, each a * x^k reduced modulo 0x11d.
pub open spec fn gf_product(a: u8, b: u8) -> u8 {
    let a1 = xtime(a);
    let a2 = xtime(a1);
    let a3 = xtime(a2);
    let a4 = xtime(a3);
    let a5 = xtime(a4);
    let a6 = xtime(a5);
    let a7 = xtime(a6);
    bit_term(a, b, 0) ^ bit_term(a1, b, 1) ^ bit_term(a2, b, 2) ^ bit_term(a3, b, 3)
        ^ bit_term(a4, b, 4) ^ bit_term(a5, b, 5) ^ bit_term(a6, b, 6) ^ bit_term(a7, b, 7)
}

/// GF(2^8) has no zero divisors.
pub proof fn lemma_product_nonzero(a: u8, b: u8)
    requires
        a != 0,
        b != 0,
    ensures
        gf_product(a, b) != 0,
{
    assert(a != 0 && b != 0 ==> gf_product(a, b) != 0) by (bit_vector);
}


/// x^n in GF(2^8), as repeated products.
pub open spec fn gf_power(x: u8, n: nat) -> u8
    decreases n,
{
    if n == 0 {
        1
    } else {
        gf_product(gf_power(x, (n - 1) as nat), x)
    }
}


/// a / b in GF(2^8): a times b^254, the inverse of a nonzero b (b^255 = 1).
pub open spec fn gf_quotient(a: u8, b: u8) -> u8 {
    gf_product(a, gf_power(b, 254))
}

/// Value at `x` of the polynomial with coefficients `coeffs`, lowest degree
/// first: the sum of coeffs[i] * x^i.
pub open spec fn poly_value(coeffs: Seq<u8>, x: u8) -> u8
    decreases coeffs.len(),
{
    if coeffs.len() == 0 {
        0
    } else {
        poly_value(coeffs.drop_last(), x) ^ gf_product(coeffs.last(), gf_power(x, (coeffs.len() - 1) as nat))
    }
}

fn xtime_exec(a: u8) -> (r: u8)
    ensures
        r == xtime(a),
{
    if a & 0x80u8 == 0 {
        a << 1u8
    } else {
        (a << 1u8) ^ 0x1du8
    }
}

fn bit_term_exec(a: u8, b: u8, k: u8) -> (r: u8)
    requires
        k < 8,
    ensures
        r == bit_term(a, b, k),
{
    if (b >> k) & 1u8 == 1u8 { a } else { 0u8 }
}

/// Product in GF(2^8).
pub fn gf_mul(a: u8, b: u8) -> (r: u8)
    ensures
        r == gf_product(a, b),
{
    if a == 0 || b == 0 {
        assert(gf_product(0, b) == 0) by (bit_vector);
        assert(gf_product(a, 0) == 0) by (bit_vector);
        return 0;
    }
    let a1 = xtime_exec(a);
    let a2 = xtime_exec(a1);
    let a3 = xtime_exec(a2);
    let a4 = xtime_exec(a3);
    let a5 = xtime_exec(a4);
    let a6 = xtime_exec(a5);
    let a7 = xtime_exec(a6);
    bit_term_exec(a, b, 0) ^ bit_term_exec(a1, b, 1) ^ bit_term_exec(a2, b, 2) ^ bit_term_exec(a3, b, 3)
        ^ bit_term_exec(a4, b, 4) ^ bit_term_exec(a5, b, 5) ^ bit_term_exec(a6, b, 6) ^ bit_term_exec(a7, b, 7)
}

/// `x` raised to `power` in GF(2^8) (0^0 is 1, and 0 to any other power is 0).
pub fn gf_pow(x: u8, power: usize) -> (r: u8)
    ensures
        r == gf_power(x, power as nat),
{
    if power == 0 {
        return 1;
    }
    let mut acc: u8 = 1;
    let mut i: usize = 0;
    while i < power
        invariant
            i <= power,
            acc == gf_power(x, i as nat),
        decreases power - i,
    {
        acc = gf_mul(acc, x);
        i = i + 1;
    }
    acc
}

/// `a / b` in GF(2^8); `b` must not be zero.
pub fn gf_div(a: u8, b: u8) -> (r: u8)
    requires
        b != 0,
    ensures
        r == gf_quotient(a, b),
{
    let inv = gf_pow(b, 254);
    if a == 0 {
        assert(gf_product(0, inv) == 0) by (bit_vector);
        return 0;
    }
    gf_mul(a, inv)
}

/// Value of the polynomial `coeffs` (lowest degree first) at `x`.
pub fn gf256_poly_eval(coeffs: &[u8], x: u8) -> (r: u8)
    ensures
        r == poly_value(coeffs@, x),
{
    let mut acc: u8 = 0;
    let mut i: usize = 0;
    while i < coeffs.len()
        invariant
            i <= coeffs.len(),
            acc == poly_value(coeffs@.take(i as int), x),
        decreases coeffs.len() - i,
    {
        let term = gf_mul(coeffs[i], gf_pow(x, i));
        proof {
            let next = coeffs@.take(i + 1);
            assert(next.drop_last() =~= coeffs@.take(i as int));
            assert(next.last() == coeffs@[i as int]);
        }
        acc = acc ^ term;
        i = i + 1;
    }
    proof {
        assert(coeffs@.take(coeffs.len() as int) =~= coeffs@);
    }
    acc
}


/// Product of xs[j] over the j < n other than i, taken in order.
pub open spec fn basis_numerator(xs: Seq<u8>, i: int, n: int) -> u8
    decreases n,
{
    if n <= 0 {
        1
    } else if n - 1 == i {
        basis_numerator(xs, i, n - 1)
    } else {
        gf_product(basis_numerator(xs, i, n - 1), xs[n - 1])
    }
}

/// Product of (xs[i] - xs[j]) over the j < n other than i, taken in order;
/// subtraction in GF(2^8) is xor.
pub open spec fn basis_denominator(xs: Seq<u8>, i: int, n: int) -> u8
    decreases n,
{
    if n <= 0 {
        1
    } else if n - 1 == i {
        basis_denominator(xs, i, n - 1)
    } else {
        gf_product(basis_denominator(xs, i, n - 1), xs[i] ^ xs[n - 1])
    }
}

/// Lagrange interpolation at 0 through the first `m` points (xs[i], ys[i]):
/// the sum of ys[i] * prod_{j != i} xs[j] / (xs[i] - xs[j]).
pub open spec fn lagrange_at_zero(xs: Seq<u8>, ys: Seq<u8>, m: int) -> u8
    decreases m,
{
    if m <= 0 {
        0
    } else {
        lagrange_at_zero(xs, ys, m - 1) ^ gf_product(
            ys[m - 1],
            gf_quotient(basis_numerator(xs, m - 1, xs.len() as int), basis_denominator(xs, m - 1, xs.len() as int)),
        )
    }
}

/// Number of points that the interpolation pairs up.
pub open spec fn point_count(xs: Seq<u8>, ys: Seq<u8>) -> int {
    if xs.len() <= ys.len() { xs.len() as int } else { ys.len() as int }
}

/// The abscissa of each paired point differs from every other abscissa.
pub open spec fn abscissas_distinct(xs: Seq<u8>, m: int) -> bool {
    forall|i: int, j: int| 0 <= i < m && 0 <= j < xs.len() && i != j ==> #[trigger] xs[i] != #[trigger] xs[j]
}

/// Points distinct from `xs[i]` give a nonzero basis denominator at `i`.
pub proof fn lemma_denominator_nonzero(xs: Seq<u8>, i: int, n: int)
    requires
        0 <= i < xs.len(),
        n <= xs.len(),
        forall|j: int| 0 <= j < xs.len() && j != i ==> xs[i] != #[trigger] xs[j],
    ensures
        basis_denominator(xs, i, n) != 0,
    decreases n,
{
    if n > 0 {
        lemma_denominator_nonzero(xs, i, n - 1);
        if n - 1 != i {
            let d = xs[i] ^ xs[n - 1];
            let a = xs[i];
            let b = xs[n - 1];
            assert(a != b ==> a ^ b != 0) by (bit_vector);
            lemma_product_nonzero(basis_denominator(xs, i, n - 1), d);
        }
    }
}

/// Lagrange interpolation at 0 over GF(2^8) of the points (xs[i], ys[i]),
/// paired up to the shorter of the two.
pub fn gf256_lagrange(xs: &[u8], ys: &[u8]) -> (r: u8)
    requires
        abscissas_distinct(xs@, point_count(xs@, ys@)),
    ensures
        r == lagrange_at_zero(xs@, ys@, point_count(xs@, ys@)),
{
    let m: usize = if xs.len() <= ys.len() { xs.len() } else { ys.len() };
    let mut result: u8 = 0;
    let mut i: usize = 0;
    while i < m
        invariant
            m == point_count(xs@, ys@),
            m <= xs.len(),
            m <= ys.len(),
            i <= m,
            abscissas_distinct(xs@, m as int),
            result == lagrange_at_zero(xs@, ys@, i as int),
        decreases m - i,
    {
        let xi = xs[i];
        let yi = ys[i];
        let mut num: u8 = 1;
        let mut den: u8 = 1;
        let mut j: usize = 0;
        while j < xs.len()
            invariant
                i < m,
                m <= xs.len(),
                j <= xs.len(),
                xi == xs@[i as int],
                num == basis_numerator(xs@, i as int, j as int),
                den == basis_denominator(xs@, i as int, j as int),
            decreases xs.len() - j,
        {
            if i != j {
                num = gf_mul(num, xs[j]);
                den = gf_mul(den, xi ^ xs[j]);
            }
            j = j + 1;
        }
        proof {
            assert forall|k: int| 0 <= k < xs@.len() && k != i implies xs@[i as int] != #[trigger] xs@[k] by {
                assert(xs@[i as int] != xs@[k]);
            }
            lemma_denominator_nonzero(xs@, i as int, xs.len() as int);
        }
        let q = gf_div(num, den);
        result = result ^ gf_mul(yi, q);
        i = i + 1;
    }
    result
}


/// One validator's share of a secret.
#[derive(Clone)]
pub struct SecretShare {
    /// Abscissa of the share, counted from 1.
    pub index: u8,
    /// One value per byte of the secret.
    pub value: Vec<u8>,
}

/// Why splitting or reconstructing a secret was refused.
#[derive(Clone, Copy, Debug, PartialEq, Eq, Structural)]
pub enum ShamirError {
    ThresholdTooSmall,
    TotalBelowThreshold,
    TooManyShares,
    NoShares,
}

/// The text of `e`.
pub open spec fn shamir_error_text(e: ShamirError) -> Seq<char> {
    match e {
        ShamirError::ThresholdTooSmall => "threshold mínimo es 2"@,
        ShamirError::TotalBelowThreshold => "total debe ser >= threshold"@,
        ShamirError::TooManyShares => "total máximo es 255"@,
        ShamirError::NoShares => "No hay shares"@,
    }
}

impl ShamirError {
    /// Text of the error.
    pub fn message(&self) -> (s: String)
        ensures
            s@ == shamir_error_text(*self),
    {
        match self {
            ShamirError::ThresholdTooSmall => String::from_str("threshold mínimo es 2"),
            ShamirError::TotalBelowThreshold => String::from_str("total debe ser >= threshold"),
            ShamirError::TooManyShares => String::from_str("total máximo es 255"),
            ShamirError::NoShares => String::from_str("No hay shares"),
        }
    }
}

/// Abscissas of the shares, in order.
pub open spec fn share_indices(shares: Seq<SecretShare>) -> Seq<u8> {
    Seq::new(shares.len(), |k: int| shares[k].index)
}

/// Byte `b` of every share, in order.
pub open spec fn share_column(shares: Seq<SecretShare>, b: int) -> Seq<u8> {
    Seq::new(shares.len(), |k: int| shares[k].value@[b])
}

/// The shares can be combined: none is shorter than the first, and when
/// there is a byte to recover their abscissas are pairwise distinct.
pub open spec fn shares_combinable(shares: Seq<SecretShare>) -> bool {
    shares.len() > 0 ==> {
        &&& forall|k: int| 0 <= k < shares.len() ==> #[trigger] shares[k].value@.len() >= shares[0].value@.len()
        &&& shares[0].value@.len() > 0 ==> abscissas_distinct(share_indices(shares), shares.len() as int)
    }
}

/// The secret that `shares` interpolate: byte by byte, the Lagrange value
/// at 0 through all the shares, as long as the first share.
pub open spec fn interpolated_secret(shares: Seq<SecretShare>) -> Seq<u8> {
    Seq::new(
        shares[0].value@.len(),
        |b: int| lagrange_at_zero(share_indices(shares), share_column(shares, b), shares.len() as int),
    )
}

/// Interpolates the secret at 0 from the given shares (all of them are used).
pub fn reconstruct_secret(shares: &[SecretShare]) -> (r: Result<Vec<u8>, ShamirError>)
    requires
        shares_combinable(shares@),
    ensures
        shares@.len() == 0 <==> r == Err::<Vec<u8>, ShamirError>(ShamirError::NoShares),
        shares@.len() > 0 ==> r is Ok,
        r is Ok ==> r->Ok_0@ == interpolated_secret(shares@),
{
    if shares.len() == 0 {
        return Err(ShamirError::NoShares);
    }
    let secret_len = shares[0].value.len();
    let mut secret: Vec<u8> = Vec::new();
    let mut b: usize = 0;
    while b < secret_len
        invariant
            shares@.len() > 0,
            shares_combinable(shares@),
            secret_len == shares@[0].value@.len(),
            b <= secret_len,
            secret@.len() == b,
            forall|c: int| 0 <= c < b ==> secret@[c] == interpolated_secret(shares@)[c],
        decreases secret_len - b,
    {
        let mut xs: Vec<u8> = Vec::new();
        let mut ys: Vec<u8> = Vec::new();
        let mut k: usize = 0;
        while k < shares.len()
            invariant
                shares@.len() > 0,
                shares_combinable(shares@),
                secret_len == shares@[0].value@.len(),
                b < secret_len,
                k <= shares.len(),
                xs@.len() == k,
                ys@.len() == k,
                forall|t: int| 0 <= t < k ==> xs@[t] == share_indices(shares@)[t],
                forall|t: int| 0 <= t < k ==> ys@[t] == share_column(shares@, b as int)[t],
            decreases shares.len() - k,
        {
            assert(shares@[k as int].value@.len() >= shares@[0].value@.len());
            xs.push(shares[k].index);
            ys.push(shares[k].value[b]);
            k = k + 1;
        }
        proof {
            assert(xs@ =~= share_indices(shares@));
            assert(ys@ =~= share_column(shares@, b as int));
        }
        let v = gf256_lagrange(xs.as_slice(), ys.as_slice());
        secret.push(v);
        b = b + 1;
    }
    proof {
        assert(secret@ =~= interpolated_secret(shares@));
    }
    Ok(secret)
}

/// `shares` are the values at 1, 2, ..., total of one polynomial per byte of
/// `secret`, each with `threshold` coefficients and the secret byte as its
/// constant term.
pub open spec fn shares_of_polynomials(
    shares: Seq<SecretShare>,
    polys: Seq<Seq<u8>>,
    secret: Seq<u8>,
    threshold: nat,
    total: nat,
) -> bool {
    &&& polys.len() == secret.len()
    &&& forall|b: int| 0 <= b < polys.len() ==> (#[trigger] polys[b]).len() == threshold && polys[b][0] == secret[b]
    &&& shares.len() == total
    &&& forall|i: int| 0 <= i < shares.len() ==> (#[trigger] shares[i]).index == i + 1 && shares[i].value@.len() == secret.len()
    &&& forall|i: int, b: int|
        0 <= i < shares.len() && 0 <= b < secret.len() ==> (#[trigger] shares[i].value@[b]) == poly_value(polys[b], (i + 1) as u8)
}

/// Splits `secret` into `total` shares of which any `threshold` recover it.
/// Every coefficient but the constant term is random.
pub fn split_secret(secret: &[u8], threshold: usize, total: usize) -> (r: Result<Vec<SecretShare>, ShamirError>)
    ensures
        threshold < 2 ==> r == Err::<Vec<SecretShare>, ShamirError>(ShamirError::ThresholdTooSmall),
        threshold >= 2 && total < threshold ==> r == Err::<Vec<SecretShare>, ShamirError>(ShamirError::TotalBelowThreshold),
        threshold >= 2 && total >= threshold && total > 255 ==> r == Err::<Vec<SecretShare>, ShamirError>(ShamirError::TooManyShares),
        threshold >= 2 && total >= threshold && total <= 255 ==> r is Ok,
        r is Ok ==> exists|polys: Seq<Seq<u8>>| shares_of_polynomials(r->Ok_0@, polys, secret@, threshold as nat, total as nat),
{
    if threshold < 2 {
        return Err(ShamirError::ThresholdTooSmall);
    }
    if total < threshold {
        return Err(ShamirError::TotalBelowThreshold);
    }
    if total > 255 {
        return Err(ShamirError::TooManyShares);
    }
    let secret_len = secret.len();
    let mut polys: Vec<Vec<u8>> = Vec::new();
    let mut b: usize = 0;
    while b < secret_len
        invariant
            secret_len == secret@.len(),
            threshold >= 2,
            b <= secret_len,
            polys@.len() == b,
            forall|c: int| 0 <= c < b ==> (#[trigger] polys@[c])@.len() == threshold && polys@[c]@[0] == secret@[c],
        decreases secret_len - b,
    {
        let rnd = os_random_bytes(threshold - 1);
        let mut coeffs: Vec<u8> = Vec::new();
        coeffs.push(secret[b]);
        let mut k: usize = 1;
        while k < threshold
            invariant
                1 <= k <= threshold,
                b < secret@.len(),
                rnd@.len() == threshold - 1,
                coeffs@.len() == k,
                coeffs@[0] == secret@[b as int],
            decreases threshold - k,
        {
            coeffs.push(rnd[k - 1]);
            k = k + 1;
        }
        polys.push(coeffs);
        b = b + 1;
    }
    let ghost poly_views: Seq<Seq<u8>> = polys@.map_values(|p: Vec<u8>| p@);
    let mut shares: Vec<SecretShare> = Vec::new();
    let mut i: usize = 0;
    while i < total
        invariant
            total <= 255,
            secret_len == secret@.len(),
            polys@.len() == secret_len,
            poly_views == polys@.map_values(|p: Vec<u8>| p@),
            i <= total,
            shares@.len() == i,
            forall|t: int| 0 <= t < i ==> (#[trigger] shares@[t]).index == t + 1 && shares@[t].value@.len() == secret_len,
            forall|t: int, c: int|
                0 <= t < i && 0 <= c < secret_len ==> (#[trigger] shares@[t].value@[c]) == poly_value(poly_views[c], (t + 1) as u8),
        decreases total - i,
    {
        let x: u8 = (i + 1) as u8;
        let mut value: Vec<u8> = Vec::new();
        let mut c: usize = 0;
        while c < secret_len
            invariant
                secret_len == polys@.len(),
                poly_views == polys@.map_values(|p: Vec<u8>| p@),
                c <= secret_len,
                value@.len() == c,
                forall|e: int| 0 <= e < c ==> value@[e] == poly_value(poly_views[e], x),
            decreases secret_len - c,
        {
            let y = gf256_poly_eval(polys[c].as_slice(), x);
            value.push(y);
            c = c + 1;
        }
        shares.push(SecretShare { index: x, value });
        i = i + 1;
    }
    proof {
        assert(shares_of_polynomials(shares@, poly_views, secret@, threshold as nat, total as nat));
    }
    let r: Result<Vec<SecretShare>, ShamirError> = Ok(shares);
    assert(shares_of_polynomials(r->Ok_0@, poly_views, secret@, threshold as nat, total as nat));
    r
}

/// Any `threshold` or more shares of a split secret with distinct indices,
/// taken in any order, can be combined, and interpolating them gives the
/// secret back.
pub proof fn lemma_shares_recover_secret(
    shares: Seq<SecretShare>,
    polys: Seq<Seq<u8>>,
    secret: Seq<u8>,
    threshold: nat,
    total: nat,
    chosen: Seq<SecretShare>,
)
    requires
        shares_of_polynomials(shares, polys, secret, threshold, total),
        threshold > 0,
        chosen.len() >= threshold,
        forall|k: int| 0 <= k < chosen.len() ==> shares.contains(#[trigger] chosen[k]),
        forall|k: int, l: int| 0 <= k < chosen.len() && 0 <= l < chosen.len() && k != l ==> chosen[k].index != chosen[l].index,
    ensures
        shares_combinable(chosen),
        interpolated_secret(chosen) == secret,
{
    let m = chosen.len() as int;
    let xs = share_indices(chosen);
    // each chosen share is the values at its nonzero index
    assert forall|k: int| 0 <= k < m implies
        #[trigger] chosen[k].value@.len() == secret.len()
        && chosen[k].index != 0
        && forall|b: int| 0 <= b < secret.len() ==> chosen[k].value@[b] == poly_value(polys[b], chosen[k].index) by {
        let j = choose|j: int| 0 <= j < shares.len() && shares[j] == chosen[k];
        assert(shares[j].index == j + 1);
        assert forall|b: int| 0 <= b < secret.len() implies chosen[k].value@[b] == poly_value(polys[b], chosen[k].index) by {
            assert(shares[j].value@[b] == poly_value(polys[b], (j + 1) as u8));
        }
    }
    assert(distinct_points(xs));
    assert(shares_combinable(chosen));
    assert forall|b: int| 0 <= b < secret.len() implies #[trigger] interpolated_secret(chosen)[b] == secret[b] by {
        let p = polys[b];
        let ys = share_column(chosen, b);
        assert forall|k: int| 0 <= k < m implies ys[k] == values_at(p, xs)[k] by {
            lemma_poly_value_is_horner(p, xs[k]);
        }
        assert(ys =~= values_at(p, xs));
        lemma_interpolation(xs, p);
        lemma_lagrange_is_weighted_sum(xs, ys, m);
        assert(p.drop_first().len() < p.len());
        lemma_gf_unit(horner(p.drop_first(), 0));
        lemma_xor_laws(p[0], 0, 0, 0);
        assert(horner(p, 0) == p[0]);
    }
    assert(interpolated_secret(chosen) =~= secret);
}

} // verus!
