//! Polynomials over GF(2^8), coefficients listed from the constant term up.
use vstd::prelude::*;
use crate::gf256::{gf_mul, gf_div, gf_mul_spec, pow_spec, lemma_mul_assoc, lemma_mul_comm, lemma_mul_distrib,
    lemma_mul_distrib_left, lemma_mul_one, lemma_mul_zero, lemma_no_zero_divisors};
use crate::linalg::{xsum, singular, nonzero_vec, in_kernel, mat_vec_at, lemma_xsum_ext,
    lemma_xsum_scale_right, lemma_xsum_first, lemma_xor_comm_assoc, lemma_xsum_add, lemma_xsum_single};

verus! {

/// The value at `a` of the polynomial with coefficients `x` (constant term first).
pub open spec fn peval(x: Seq<u8>, a: u8) -> u8
    decreases x.len(),
{
    if x.len() == 0 {
        0u8
    } else {
        (x[0] ^ gf_mul_spec(peval(x.drop_first(), a), a)) as u8
    }
}

/// The quotient of `x` by `X - a` (synthetic division).
pub open spec fn quot(x: Seq<u8>, a: u8) -> Seq<u8>
    decreases x.len(),
{
    if x.len() <= 1 {
        Seq::empty()
    } else {
        seq![peval(x.drop_first(), a)] + quot(x.drop_first(), a)
    }
}

pub proof fn lemma_quot_len(x: Seq<u8>, a: u8)
    requires x.len() >= 1,
    ensures quot(x, a).len() == x.len() - 1,
    decreases x.len(),
{
    if x.len() > 1 {
        lemma_quot_len(x.drop_first(), a);
    }
}

proof fn lemma_div_xor(x0: u8, u: u8, v: u8, z: u8)
    ensures (x0 ^ ((v ^ z) as u8)) as u8 == (((x0 ^ u) as u8) ^ ((((v ^ u) as u8) ^ z) as u8)) as u8,
{
    assert((x0 ^ ((v ^ z) as u8)) as u8 == (((x0 ^ u) as u8) ^ ((((v ^ u) as u8) ^ z) as u8)) as u8) by (bit_vector);
}

/// Division by `X - a`: x(b) = x(a) + (b - a) * q(b).
pub proof fn lemma_div(x: Seq<u8>, a: u8, b: u8)
    requires x.len() >= 1,
    ensures
        peval(x, b) == (peval(x, a) ^ gf_mul_spec((b ^ a) as u8, peval(quot(x, a), b))) as u8,
    decreases x.len(),
{
    let y = x.drop_first();
    let x0 = x[0];
    let ba = (b ^ a) as u8;
    if x.len() == 1 {
        assert(peval(y, b) == 0);
        assert(peval(y, a) == 0);
        lemma_mul_zero(b);
        lemma_mul_zero(a);
        lemma_mul_zero(ba);
        assert(peval(quot(x, a), b) == 0);
        lemma_xor_comm_assoc(x0, 0, 0, 0);
    } else {
        lemma_div(y, a, b);
        let p = peval(y, a);
        let qy = quot(y, a);
        let qq = peval(qy, b);
        assert(quot(x, a) == seq![p] + qy);
        assert((seq![p] + qy).drop_first() =~= qy);
        assert(peval(quot(x, a), b) == (p ^ gf_mul_spec(qq, b)) as u8);
        // left side
        let z = gf_mul_spec(gf_mul_spec(ba, qq), b);
        lemma_mul_distrib_left(p, gf_mul_spec(ba, qq), b);
        // right side
        lemma_mul_distrib(ba, p, gf_mul_spec(qq, b));
        lemma_mul_distrib_left(b, a, p);
        lemma_mul_comm(b, p);
        lemma_mul_comm(a, p);
        lemma_mul_assoc(ba, qq, b);
        lemma_div_xor(x0, gf_mul_spec(p, a), gf_mul_spec(p, b), z);
    }
}

/// A polynomial whose quotient by `X - a` vanishes and which vanishes at `a` is zero.
pub proof fn lemma_quot_zero(x: Seq<u8>, a: u8)
    requires
        x.len() >= 1,
        peval(x, a) == 0,
        forall|i: int| 0 <= i < quot(x, a).len() ==> #[trigger] quot(x, a)[i] == 0,
    ensures
        forall|j: int| 0 <= j < x.len() ==> #[trigger] x[j] == 0,
    decreases x.len(),
{
    let y = x.drop_first();
    let x0 = x[0];
    if x.len() == 1 {
        assert(peval(y, a) == 0);
        lemma_mul_zero(a);
        lemma_xor_comm_assoc(x0, 0, 0, 0);
        assert(x0 == 0);
    } else {
        let q = quot(x, a);
        assert(q[0] == peval(y, a));
        assert(q == seq![peval(y, a)] + quot(y, a));
        assert forall|i: int| 0 <= i < quot(y, a).len() implies #[trigger] quot(y, a)[i] == 0 by {
            assert(quot(y, a)[i] == q[i + 1]);
        }
        lemma_quot_zero(y, a);
        lemma_mul_zero(a);
        lemma_xor_comm_assoc(x0, 0, 0, 0);
        assert forall|j: int| 0 <= j < x.len() implies #[trigger] x[j] == 0 by {
            if j > 0 {
                assert(x[j] == y[j - 1]);
            }
        }
    }
}

/// The nodes are pairwise distinct.
pub open spec fn distinct_nodes(nodes: Seq<u8>) -> bool {
    forall|i: int, j: int| 0 <= i < nodes.len() && 0 <= j < nodes.len() && i != j ==> nodes[i] != nodes[j]
}

/// A polynomial with `n` coefficients vanishing at `n` distinct points is zero.
pub proof fn lemma_zero_poly(x: Seq<u8>, nodes: Seq<u8>)
    requires
        x.len() == nodes.len(),
        distinct_nodes(nodes),
        forall|i: int| 0 <= i < nodes.len() ==> #[trigger] peval(x, nodes[i]) == 0,
    ensures
        forall|j: int| 0 <= j < x.len() ==> #[trigger] x[j] == 0,
    decreases x.len(),
{
    if x.len() == 0 {
        return;
    }
    let n = x.len();
    let a = nodes[n - 1];
    let q = quot(x, a);
    lemma_quot_len(x, a);
    let rest = nodes.subrange(0, n - 1);
    assert forall|i: int| 0 <= i < rest.len() implies #[trigger] peval(q, rest[i]) == 0 by {
        let b = rest[i];
        assert(b == nodes[i]);
        lemma_div(x, a, b);
        assert(peval(x, b) == 0);
        assert(peval(x, a) == 0);
        let d = (b ^ a) as u8;
        assert(b != a);
        assert(b != a ==> (b ^ a) as u8 != 0u8) by (bit_vector);
        lemma_xor_comm_assoc(gf_mul_spec(d, peval(q, b)), 0, 0, 0);
        lemma_no_zero_divisors(d, peval(q, b));
    }
    lemma_zero_poly(q, rest);
    lemma_quot_zero(x, a);
}

/// The polynomial value as the sum of its terms x_j * a^j.
pub proof fn lemma_peval_sum(x: Seq<u8>, a: u8)
    ensures
        peval(x, a) == xsum(|j: int| gf_mul_spec(pow_spec(a, j as nat), x[j]), x.len()),
    decreases x.len(),
{
    let f = |j: int| gf_mul_spec(pow_spec(a, j as nat), x[j]);
    if x.len() == 0 {
        return;
    }
    let y = x.drop_first();
    lemma_peval_sum(y, a);
    let fy = |j: int| gf_mul_spec(pow_spec(a, j as nat), y[j]);
    let g = |j: int| f(j + 1);
    let h = |j: int| gf_mul_spec(fy(j), a);
    assert forall|j: int| 0 <= j < x.len() - 1 implies #[trigger] g(j) == f(j + 1) by {}
    lemma_xsum_first(f, g, x.len());
    lemma_xsum_scale_right(a, fy, h, y.len());
    assert forall|j: int| 0 <= j < y.len() implies #[trigger] h(j) == g(j) by {
        let p = pow_spec(a, j as nat);
        assert(pow_spec(a, (j + 1) as nat) == gf_mul_spec(a, p));
        assert(y[j] == x[j + 1]);
        lemma_mul_assoc(p, y[j], a);
        lemma_mul_comm(y[j], a);
        lemma_mul_assoc(p, a, y[j]);
        lemma_mul_comm(p, a);
    }
    lemma_xsum_ext(h, g, y.len());
    assert(pow_spec(a, 0) == 1);
    lemma_mul_one(x[0]);
}

/// A square Vandermonde matrix on distinct nodes is non-singular.
pub proof fn lemma_vandermonde_nonsingular(v: Seq<Seq<u8>>, nodes: Seq<u8>, n: nat)
    requires
        nodes.len() == n,
        distinct_nodes(nodes),
        forall|i: int, j: int| 0 <= i < n && 0 <= j < n ==> #[trigger] v[i][j] == pow_spec(nodes[i], j as nat),
    ensures
        !singular(v, n),
{
    if singular(v, n) {
        let x = choose|x: Seq<u8>| nonzero_vec(x, n) && in_kernel(v, x, n);
        assert forall|i: int| 0 <= i < nodes.len() implies #[trigger] peval(x, nodes[i]) == 0 by {
            lemma_peval_sum(x, nodes[i]);
            assert(mat_vec_at(v, x, i, n) == 0);
            let f = |k: int| gf_mul_spec(v[i][k], x[k]);
            let g = |j: int| gf_mul_spec(pow_spec(nodes[i], j as nat), x[j]);
            assert forall|k: int| 0 <= k < n implies #[trigger] f(k) == g(k) by {}
            lemma_xsum_ext(f, g, n);
        }
        lemma_zero_poly(x, nodes);
        let c = choose|c: int| 0 <= c < n && x[c] != 0;
        assert(x[c] == 0);
    }
}


/// Evaluates at `x` the polynomial with coefficients `coeffs` (constant term
/// first), by Horner's rule.
pub fn gf_poly_eval(coeffs: &[u8], x: u8) -> (r: u8)
    ensures r == peval(coeffs@, x),
{
    let mut result: u8 = 0;
    let mut i: usize = coeffs.len();
    assert(coeffs@.subrange(i as int, coeffs@.len() as int) =~= Seq::<u8>::empty());
    while i > 0
        invariant
            i <= coeffs@.len(),
            result == peval(coeffs@.subrange(i as int, coeffs@.len() as int), x),
        decreases i,
    {
        i -= 1;
        let ghost tail = coeffs@.subrange(i as int, coeffs@.len() as int);
        assert(tail.drop_first() =~= coeffs@.subrange(i + 1, coeffs@.len() as int));
        let c = coeffs[i];
        let m = gf_mul(result, x);
        proof { lemma_xor_comm_assoc(m, c, 0, 0); }
        result = m ^ c;
    }
    assert(coeffs@.subrange(0, coeffs@.len() as int) =~= coeffs@);
    result
}

/// Multiplies every coefficient by `scalar`.
pub fn gf_poly_scale(poly: &[u8], scalar: u8) -> (r: Vec<u8>)
    ensures r@ == Seq::new(poly@.len(), |i: int| gf_mul_spec(poly@[i], scalar)),
{
    let mut out: Vec<u8> = Vec::new();
    let mut i: usize = 0;
    while i < poly.len()
        invariant
            i <= poly@.len(),
            out@.len() == i,
            forall|j: int| 0 <= j < i ==> #[trigger] out@[j] == gf_mul_spec(poly@[j], scalar),
        decreases poly@.len() - i,
    {
        out.push(gf_mul(poly[i], scalar));
        i += 1;
    }
    assert(out@ =~= Seq::new(poly@.len(), |i: int| gf_mul_spec(poly@[i], scalar)));
    out
}

/// Coefficient `i` of `a` written right-aligned in `n` places.
pub open spec fn aligned(a: Seq<u8>, n: nat, i: int) -> u8 {
    if i >= n - a.len() { a[i - (n - a.len())] } else { 0u8 }
}

/// Sum of two polynomials listed from the highest coefficient down (the
/// shorter one aligned to the right).
pub fn gf_poly_add(a: &[u8], b: &[u8]) -> (r: Vec<u8>)
    ensures
        r@.len() == if a@.len() >= b@.len() { a@.len() } else { b@.len() },
        forall|i: int| 0 <= i < r@.len() ==> #[trigger] r@[i]
            == (aligned(a@, r@.len(), i) ^ aligned(b@, r@.len(), i)) as u8,
{
    let max_len = if a.len() >= b.len() { a.len() } else { b.len() };
    let mut out: Vec<u8> = Vec::new();
    let mut i: usize = 0;
    while i < max_len
        invariant
            max_len == if a@.len() >= b@.len() { a@.len() } else { b@.len() },
            i <= max_len,
            out@.len() == i,
            forall|j: int| 0 <= j < i ==> #[trigger] out@[j]
                == (aligned(a@, max_len as nat, j) ^ aligned(b@, max_len as nat, j)) as u8,
        decreases max_len - i,
    {
        let x: u8 = if i >= max_len - a.len() { a[i - (max_len - a.len())] } else { 0 };
        let y: u8 = if i >= max_len - b.len() { b[i - (max_len - b.len())] } else { 0 };
        out.push(x ^ y);
        i += 1;
    }
    out
}

/// Term `i` of coefficient `k` of the product `a * b`.
pub open spec fn conv_term(a: Seq<u8>, b: Seq<u8>, i: int, k: int) -> u8 {
    if 0 <= k - i < b.len() { gf_mul_spec(a[i], b[k - i]) } else { 0u8 }
}

/// Coefficient `k` of the product of `a` and `b`.
pub open spec fn conv(a: Seq<u8>, b: Seq<u8>, k: int) -> u8 {
    xsum(|i: int| conv_term(a, b, i, k), a.len())
}

/// The product of two polynomials (empty when either is empty).
pub fn gf_poly_mul(a: &[u8], b: &[u8]) -> (r: Vec<u8>)
    requires a@.len() + b@.len() <= usize::MAX,
    ensures
        a@.len() == 0 || b@.len() == 0 ==> r@.len() == 0,
        a@.len() > 0 && b@.len() > 0 ==> r@.len() == a@.len() + b@.len() - 1
            && forall|k: int| 0 <= k < r@.len() ==> #[trigger] r@[k] == conv(a@, b@, k),
{
    if a.len() == 0 || b.len() == 0 {
        return Vec::new();
    }
    let n = a.len() + b.len() - 1;
    let mut out: Vec<u8> = Vec::new();
    let mut z: usize = 0;
    while z < n
        invariant
            z <= n,
            out@.len() == z,
            forall|k: int| 0 <= k < z ==> #[trigger] out@[k] == 0,
        decreases n - z,
    {
        out.push(0);
        z += 1;
    }
    let mut i: usize = 0;
    while i < a.len()
        invariant
            n == a@.len() + b@.len() - 1,
            b@.len() > 0,
            i <= a@.len(),
            out@.len() == n,
            forall|k: int| 0 <= k < n ==> #[trigger] out@[k] == xsum(|ii: int| conv_term(a@, b@, ii, k), i as nat),
        decreases a@.len() - i,
    {
        let mut j: usize = 0;
        assert forall|k: int| 0 <= k < n implies #[trigger] out@[k]
            == (xsum(|ii: int| conv_term(a@, b@, ii, k), i as nat)
                ^ (if i <= k < i + j { conv_term(a@, b@, i as int, k) } else { 0u8 })) as u8 by {
            lemma_xor_comm_assoc(xsum(|ii: int| conv_term(a@, b@, ii, k), i as nat), 0, 0, 0);
        }
        while j < b.len()
            invariant
                n == a@.len() + b@.len() - 1,
                i < a@.len(),
                j <= b@.len(),
                out@.len() == n,
                forall|k: int| 0 <= k < n ==> #[trigger] out@[k]
                    == (xsum(|ii: int| conv_term(a@, b@, ii, k), i as nat)
                        ^ (if i <= k < i + j { conv_term(a@, b@, i as int, k) } else { 0u8 })) as u8,
            decreases b@.len() - j,
        {
            let ghost before = out@;
            let v = out[i + j] ^ gf_mul(a[i], b[j]);
            out.set(i + j, v);
            proof {
                assert forall|k: int| 0 <= k < n implies #[trigger] out@[k]
                    == (xsum(|ii: int| conv_term(a@, b@, ii, k), i as nat)
                        ^ (if i <= k < i + j + 1 { conv_term(a@, b@, i as int, k) } else { 0u8 })) as u8 by {
                    let base = xsum(|ii: int| conv_term(a@, b@, ii, k), i as nat);
                    if k == i + j {
                        let t = conv_term(a@, b@, i as int, k);
                        assert(before[k] == (base ^ 0u8) as u8);
                        assert(((base ^ 0u8) as u8 ^ t) as u8 == (base ^ t) as u8) by (bit_vector);
                    }
                }
            }
            j += 1;
        }
        proof {
            assert forall|k: int| 0 <= k < n implies #[trigger] out@[k] == xsum(|ii: int| conv_term(a@, b@, ii, k), (i + 1) as nat) by {
                let base = xsum(|ii: int| conv_term(a@, b@, ii, k), i as nat);
                if !(i <= k < i + b@.len()) {
                    assert(conv_term(a@, b@, i as int, k) == 0);
                }
                lemma_xor_comm_assoc(base, 0, 0, 0);
            }
        }
        i += 1;
    }
    out
}

/// `dividend` equals `q * divisor` plus `rem` in its lowest places
/// (coefficients listed from the highest down).
pub open spec fn division_identity(dividend: Seq<u8>, divisor: Seq<u8>, q: Seq<u8>, rem: Seq<u8>) -> bool {
    let sep = dividend.len() - divisor.len() + 1;
    &&& q.len() == sep
    &&& rem.len() == divisor.len() - 1
    &&& forall|k: int| 0 <= k < dividend.len() ==> #[trigger] dividend[k]
        == (conv(q, divisor, k) ^ (if k >= sep { rem[k - sep] } else { 0u8 })) as u8
}

proof fn lemma_xsum_one_change(f: spec_fn(int) -> u8, g: spec_fn(int) -> u8, n: nat, a: int)
    requires
        0 <= a < n,
        f(a) == 0,
        forall|i: int| #![trigger f(i)] #![trigger g(i)] 0 <= i < n && i != a ==> f(i) == g(i),
    ensures
        xsum(g, n) == (xsum(f, n) ^ g(a)) as u8,
{
    let e = |i: int| if i == a { g(a) } else { 0u8 };
    assert forall|i: int| 0 <= i < n implies #[trigger] g(i) == (f(i) ^ e(i)) as u8 by {
        lemma_xor_comm_assoc(f(i), g(a), 0, 0);
        lemma_xor_comm_assoc(g(i), 0, 0, 0);
    }
    lemma_xsum_add(f, e, g, n);
    lemma_xsum_single(e, n, a);
}

/// Adding `s` at place `i` of a quotient that had 0 there adds `s` times
/// the divisor, shifted to `i`, to the product.
proof fn lemma_conv_add_term(q: Seq<u8>, d: Seq<u8>, i: int, s: u8, k: int)
    requires
        0 <= i < q.len(),
        q[i] == 0,
    ensures
        conv(q.update(i, s), d, k) == (conv(q, d, k) ^ conv_term(q.update(i, s), d, i, k)) as u8,
{
    let q2 = q.update(i, s);
    let f = |j: int| conv_term(q, d, j, k);
    let g = |j: int| conv_term(q2, d, j, k);
    lemma_mul_zero(d[k - i]);
    assert(f(i) == 0);
    assert forall|j: int| #![trigger f(j)] #![trigger g(j)] 0 <= j < q.len() && j != i implies f(j) == g(j) by {
        assert(q2[j] == q[j]);
    }
    lemma_xsum_one_change(f, g, q.len(), i);
    assert(conv(q, d, k) == xsum(f, q.len()));
    assert(conv(q2, d, k) == xsum(g, q2.len()));
}

/// Synthetic division (coefficients from the highest down): the quotient
/// places are cleared as the divisor is subtracted, so the quotient comes
/// back as zeros, and the remainder is what is left in the lowest
/// `divisor.len() - 1` places. A dividend shorter than the divisor is all
/// remainder.
pub fn gf_poly_div(dividend: &[u8], divisor: &[u8]) -> (r: (Vec<u8>, Vec<u8>))
    requires
        dividend@.len() >= divisor@.len() ==> divisor@.len() > 0 && (divisor@[0] != 0
            || forall|k: int| 0 <= k < dividend@.len() - divisor@.len() + 1 ==> dividend@[k] == 0),
    ensures
        dividend@.len() < divisor@.len() ==> r.0@.len() == 0 && r.1@ == dividend@,
        dividend@.len() >= divisor@.len() ==> {
            let sep = dividend@.len() - divisor@.len() + 1;
            &&& r.0@ == Seq::new(sep as nat, |k: int| 0u8)
            &&& exists|q: Seq<u8>| division_identity(dividend@, divisor@, q, r.1@)
            &&& divisor@[0] == 0 ==> r.1@ == dividend@.skip(sep)
        },
{
    if dividend.len() < divisor.len() {
        let mut rem: Vec<u8> = Vec::new();
        let mut k: usize = 0;
        while k < dividend.len()
            invariant
                k <= dividend@.len(),
                rem@ == dividend@.take(k as int),
            decreases dividend@.len() - k,
        {
            rem.push(dividend[k]);
            assert(rem@ =~= dividend@.take(k + 1));
            k = k + 1;
        }
        assert(dividend@.take(dividend@.len() as int) =~= dividend@);
        return (Vec::new(), rem);
    }
    let dl = dividend.len();
    let vl = divisor.len();
    let sep = dl - vl + 1;
    let mut out: Vec<u8> = Vec::new();
    let mut k: usize = 0;
    while k < dl
        invariant
            k <= dl == dividend@.len(),
            out@ == dividend@.take(k as int),
        decreases dl - k,
    {
        out.push(dividend[k]);
        assert(out@ =~= dividend@.take(k + 1));
        k = k + 1;
    }
    assert(out@ =~= dividend@);
    let normalizer = divisor[0];
    let ghost mut q: Seq<u8> = Seq::new(sep as nat, |k: int| 0u8);
    proof {
        assert forall|m: int| 0 <= m < dl implies #[trigger] dividend@[m] == (out@[m] ^ conv(q, divisor@, m)) as u8 by {
            let f = |j: int| conv_term(q, divisor@, j, m);
            assert forall|j: int| 0 <= j < sep implies #[trigger] f(j) == 0 by {
                lemma_mul_zero(divisor@[m - j]);
            }
            crate::linalg::lemma_xsum_zero(f, sep as nat);
            lemma_xor_comm_assoc(out@[m], 0, 0, 0);
        }
    }
    let mut i: usize = 0;
    while i < sep
        invariant
            dl == dividend@.len(),
            vl == divisor@.len(),
            vl > 0,
            sep == dl - vl + 1,
            normalizer == divisor@[0],
            normalizer != 0 || forall|m: int| 0 <= m < sep ==> dividend@[m] == 0,
            i <= sep,
            out@.len() == dl,
            q.len() == sep,
            forall|m: int| i <= m < sep ==> q[m] == 0,
            forall|m: int| 0 <= m < i ==> out@[m] == 0,
            forall|m: int| 0 <= m < dl ==> #[trigger] dividend@[m] == (out@[m] ^ conv(q, divisor@, m)) as u8,
            normalizer == 0 ==> out@ == dividend@ && forall|m: int| 0 <= m < sep ==> q[m] == 0,
        decreases sep - i,
    {
        if out[i] != 0 {
            proof {
                if normalizer == 0 {
                    assert(dividend@[i as int] == 0);
                }
            }
            let scale = gf_div(out[i], normalizer);
            let ghost before = out@;
            let ghost q2 = q.update(i as int, scale);
            out.set(i, 0);
            let mut j: usize = 1;
            while j < vl
                invariant
                    dl == dividend@.len(),
                    vl == divisor@.len(),
                    sep == dl - vl + 1,
                    i < sep,
                    1 <= j <= vl,
                    out@.len() == dl,
                    before.len() == dl,
                    forall|m: int| 0 <= m < dl ==> #[trigger] out@[m] == (if m == i {
                        0u8
                    } else if i < m < i + j {
                        (before[m] ^ gf_mul_spec(scale, divisor@[m - i])) as u8
                    } else {
                        before[m]
                    }),
                decreases vl - j,
            {
                let t = gf_mul(scale, divisor[j]);
                let v = out[i + j] ^ t;
                out.set(i + j, v);
                j = j + 1;
            }
            proof {
                assert forall|m: int| 0 <= m < dl implies #[trigger] dividend@[m] == (out@[m] ^ conv(q2, divisor@, m)) as u8 by {
                    lemma_conv_add_term(q, divisor@, i as int, scale, m);
                    let c = conv(q, divisor@, m);
                    let t = conv_term(q2, divisor@, i as int, m);
                    let bm = before[m];
                    assert(dividend@[m] == (bm ^ c) as u8);
                    if m == i {
                        assert(t == gf_mul_spec(scale, divisor@[0]));
                        lemma_mul_comm(scale, divisor@[0]);
                        assert(((0u8 ^ ((c ^ t) as u8)) as u8) == (bm ^ c) as u8) by (bit_vector)
                            requires
                                t == bm,
                        ;
                    } else if i < m < i + vl {
                        assert(((bm ^ t) ^ ((c ^ t) as u8)) as u8 == (bm ^ c) as u8) by (bit_vector);
                    } else {
                        assert(t == 0);
                        lemma_xor_comm_assoc(c, 0, 0, 0);
                    }
                }
                q = q2;
            }
        }
        i = i + 1;
    }
    let mut quotient: Vec<u8> = Vec::new();
    let mut z: usize = 0;
    while z < sep
        invariant
            z <= sep,
            quotient@ == Seq::new(z as nat, |k: int| 0u8),
        decreases sep - z,
    {
        quotient.push(0);
        assert(quotient@ =~= Seq::new((z + 1) as nat, |k: int| 0u8));
        z = z + 1;
    }
    let mut rem: Vec<u8> = Vec::new();
    let mut w: usize = sep;
    while w < dl
        invariant
            sep <= w <= dl,
            out@.len() == dl,
            rem@ == out@.subrange(sep as int, w as int),
        decreases dl - w,
    {
        rem.push(out[w]);
        assert(rem@ =~= out@.subrange(sep as int, w + 1));
        w = w + 1;
    }
    proof {
        assert forall|m: int| 0 <= m < dl implies #[trigger] dividend@[m]
            == (conv(q, divisor@, m) ^ (if m >= sep { rem@[m - sep] } else { 0u8 })) as u8 by {
            lemma_xor_comm_assoc(out@[m], conv(q, divisor@, m), 0, 0);
            if m < sep {
                lemma_xor_comm_assoc(conv(q, divisor@, m), 0, 0, 0);
            }
        }
        assert(division_identity(dividend@, divisor@, q, rem@));
        assert(exists|qq: Seq<u8>| division_identity(dividend@, divisor@, qq, rem@));
        assert(quotient@ =~= Seq::new((dividend@.len() - divisor@.len() + 1) as nat, |k: int| 0u8));
        if normalizer == 0 {
            assert(rem@ =~= dividend@.skip(sep as int));
        }
    }
    let res = (quotient, rem);
    assert(division_identity(dividend@, divisor@, q, res.1@));
    res
}

} // verus!
