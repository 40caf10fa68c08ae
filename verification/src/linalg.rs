//! Sums, matrix products and their algebra over GF(2^8).
use vstd::prelude::*;
use crate::gf256::{gf_mul_spec, lemma_mul_assoc, lemma_mul_comm, lemma_mul_distrib, lemma_mul_one, lemma_mul_zero};

verus! {

/// The field sum (xor) of `f(0) .. f(n - 1)`.
pub open spec fn xsum(f: spec_fn(int) -> u8, n: nat) -> u8
    decreases n,
{
    if n == 0 {
        0u8
    } else {
        (xsum(f, (n - 1) as nat) ^ f(n - 1)) as u8
    }
}

/// Entry `(i, j)` of the product `a * b` over an inner dimension `n`.
pub open spec fn mat_mul_at(a: Seq<Seq<u8>>, b: Seq<Seq<u8>>, i: int, j: int, n: nat) -> u8 {
    xsum(|k: int| gf_mul_spec(a[i][k], b[k][j]), n)
}

/// Entry `i` of the matrix-vector product `m * x` over `n` columns.
pub open spec fn mat_vec_at(m: Seq<Seq<u8>>, x: Seq<u8>, i: int, n: nat) -> u8 {
    xsum(|k: int| gf_mul_spec(m[i][k], x[k]), n)
}

pub open spec fn ident(i: int, j: int) -> u8 {
    if i == j { 1u8 } else { 0u8 }
}

/// `m` is exactly an `r` by `c` matrix.
pub open spec fn has_shape(m: Seq<Seq<u8>>, r: nat, c: nat) -> bool {
    &&& m.len() == r
    &&& forall|i: int| 0 <= i < r ==> #[trigger] m[i].len() == c
}

/// `a * b` is the `n` by `n` identity.
pub open spec fn is_inverse_pair(a: Seq<Seq<u8>>, b: Seq<Seq<u8>>, n: nat) -> bool {
    forall|i: int, j: int| 0 <= i < n && 0 <= j < n ==> #[trigger] mat_mul_at(a, b, i, j, n) == ident(i, j)
}

/// `inv` is a two-sided inverse of the `n` by `n` matrix `m`.
pub open spec fn is_inverse_of(inv: Seq<Seq<u8>>, m: Seq<Seq<u8>>, n: nat) -> bool {
    &&& has_shape(inv, n, n)
    &&& is_inverse_pair(inv, m, n)
    &&& is_inverse_pair(m, inv, n)
}

/// A vector of length `n` with a non-zero entry.
pub open spec fn nonzero_vec(x: Seq<u8>, n: nat) -> bool {
    &&& x.len() == n
    &&& exists|c: int| 0 <= c < n && x[c] != 0
}

/// `m * x == 0`.
pub open spec fn in_kernel(m: Seq<Seq<u8>>, x: Seq<u8>, n: nat) -> bool {
    forall|i: int| 0 <= i < n ==> #[trigger] mat_vec_at(m, x, i, n) == 0
}

/// The `n` by `n` matrix `m` maps some non-zero vector to zero.
pub open spec fn singular(m: Seq<Seq<u8>>, n: nat) -> bool {
    exists|x: Seq<u8>| nonzero_vec(x, n) && in_kernel(m, x, n)
}

pub proof fn lemma_xor_comm_assoc(a: u8, b: u8, c: u8, d: u8)
    ensures
        (a ^ b) as u8 == (b ^ a) as u8,
        ((a ^ b) ^ c) as u8 == (a ^ (b ^ c)) as u8,
        (a ^ a) as u8 == 0u8,
        (a ^ 0u8) as u8 == a,
        (0u8 ^ a) as u8 == a,
        (((a ^ b) as u8) ^ ((c ^ d) as u8)) as u8 == (((a ^ c) as u8) ^ ((b ^ d) as u8)) as u8,
{
    assert((a ^ b) as u8 == (b ^ a) as u8) by (bit_vector);
    assert(((a ^ b) ^ c) as u8 == (a ^ (b ^ c)) as u8) by (bit_vector);
    assert((a ^ a) as u8 == 0u8) by (bit_vector);
    assert((a ^ 0u8) as u8 == a) by (bit_vector);
    assert((0u8 ^ a) as u8 == a) by (bit_vector);
    assert((((a ^ b) as u8) ^ ((c ^ d) as u8)) as u8 == (((a ^ c) as u8) ^ ((b ^ d) as u8)) as u8) by (bit_vector);
}

pub proof fn lemma_xsum_ext(f: spec_fn(int) -> u8, g: spec_fn(int) -> u8, n: nat)
    requires forall|i: int| #![trigger f(i)] #![trigger g(i)] 0 <= i < n ==> f(i) == g(i),
    ensures xsum(f, n) == xsum(g, n),
    decreases n,
{
    if n > 0 {
        lemma_xsum_ext(f, g, (n - 1) as nat);
    }
}

pub proof fn lemma_xsum_zero(f: spec_fn(int) -> u8, n: nat)
    requires forall|i: int| 0 <= i < n ==> #[trigger] f(i) == 0,
    ensures xsum(f, n) == 0,
    decreases n,
{
    if n > 0 {
        lemma_xsum_zero(f, (n - 1) as nat);
        lemma_xor_comm_assoc(0, 0, 0, 0);
    }
}

pub proof fn lemma_xsum_add(f: spec_fn(int) -> u8, g: spec_fn(int) -> u8, h: spec_fn(int) -> u8, n: nat)
    requires forall|i: int| 0 <= i < n ==> #[trigger] h(i) == (f(i) ^ g(i)) as u8,
    ensures xsum(h, n) == (xsum(f, n) ^ xsum(g, n)) as u8,
    decreases n,
{
    if n == 0 {
        lemma_xor_comm_assoc(0, 0, 0, 0);
    } else {
        lemma_xsum_add(f, g, h, (n - 1) as nat);
        lemma_xor_comm_assoc(xsum(f, (n - 1) as nat), xsum(g, (n - 1) as nat), f(n - 1), g(n - 1));
    }
}

pub proof fn lemma_xsum_scale(c: u8, f: spec_fn(int) -> u8, g: spec_fn(int) -> u8, n: nat)
    requires forall|i: int| 0 <= i < n ==> #[trigger] g(i) == gf_mul_spec(c, f(i)),
    ensures xsum(g, n) == gf_mul_spec(c, xsum(f, n)),
    decreases n,
{
    if n == 0 {
        lemma_mul_zero(c);
    } else {
        lemma_xsum_scale(c, f, g, (n - 1) as nat);
        lemma_mul_distrib(c, xsum(f, (n - 1) as nat), f(n - 1));
    }
}

pub proof fn lemma_xsum_scale_right(c: u8, f: spec_fn(int) -> u8, g: spec_fn(int) -> u8, n: nat)
    requires forall|i: int| 0 <= i < n ==> #[trigger] g(i) == gf_mul_spec(f(i), c),
    ensures xsum(g, n) == gf_mul_spec(xsum(f, n), c),
{
    assert forall|i: int| 0 <= i < n implies #[trigger] g(i) == gf_mul_spec(c, f(i)) by {
        lemma_mul_comm(c, f(i));
    }
    lemma_xsum_scale(c, f, g, n);
    lemma_mul_comm(c, xsum(f, n));
}

/// A sum with a single possibly non-zero term.
pub proof fn lemma_xsum_single(f: spec_fn(int) -> u8, n: nat, k: int)
    requires
        0 <= k < n,
        forall|i: int| 0 <= i < n && i != k ==> #[trigger] f(i) == 0,
    ensures xsum(f, n) == f(k),
    decreases n,
{
    if k == n - 1 {
        lemma_xsum_zero(f, (n - 1) as nat);
        lemma_xor_comm_assoc(f(k), 0, 0, 0);
    } else {
        lemma_xsum_single(f, (n - 1) as nat, k);
        lemma_xor_comm_assoc(f(k), 0, 0, 0);
    }
}

/// A sum with two possibly non-zero terms.
pub proof fn lemma_xsum_two(f: spec_fn(int) -> u8, n: nat, a: int, b: int)
    requires
        0 <= a < n,
        0 <= b < n,
        a != b,
        forall|i: int| 0 <= i < n && i != a && i != b ==> #[trigger] f(i) == 0,
    ensures xsum(f, n) == (f(a) ^ f(b)) as u8,
    decreases n,
{
    if a == n - 1 {
        lemma_xsum_single(f, (n - 1) as nat, b);
        lemma_xor_comm_assoc(f(b), f(a), 0, 0);
    } else if b == n - 1 {
        lemma_xsum_single(f, (n - 1) as nat, a);
    } else {
        lemma_xsum_two(f, (n - 1) as nat, a, b);
        lemma_xor_comm_assoc((f(a) ^ f(b)) as u8, 0, 0, 0);
    }
}

/// Sums that differ in at most two terms, whose sums agree, are equal.
pub proof fn lemma_xsum_two_change(f: spec_fn(int) -> u8, g: spec_fn(int) -> u8, n: nat, a: int, b: int)
    requires
        0 <= a < n,
        0 <= b < n,
        a != b,
        forall|i: int| #![trigger f(i)] #![trigger g(i)] 0 <= i < n && i != a && i != b ==> f(i) == g(i),
        (f(a) ^ f(b)) as u8 == (g(a) ^ g(b)) as u8,
    ensures xsum(f, n) == xsum(g, n),
{
    let h = |i: int| (f(i) ^ g(i)) as u8;
    lemma_xsum_add(f, g, h, n);
    assert forall|i: int| 0 <= i < n && i != a && i != b implies #[trigger] h(i) == 0 by {
        lemma_xor_comm_assoc(f(i), 0, 0, 0);
    }
    lemma_xsum_two(h, n, a, b);
    lemma_xor_comm_assoc(f(a), g(a), f(b), g(b));
    lemma_xor_comm_assoc((f(a) ^ f(b)) as u8, 0, 0, 0);
    let s = xsum(f, n);
    let t = xsum(g, n);
    assert((s ^ t) as u8 == 0u8 ==> s == t) by (bit_vector);
}

/// Exchanging the order of a double sum.
pub proof fn lemma_xsum_swap(f: spec_fn(int, int) -> u8, n: nat, m: nat)
    ensures
        xsum(|i: int| xsum(|j: int| f(i, j), m), n) == xsum(|j: int| xsum(|i: int| f(i, j), n), m),
    decreases n,
{
    if n == 0 {
        lemma_xsum_zero(|j: int| xsum(|i: int| f(i, j), 0), m);
    } else {
        lemma_xsum_swap(f, (n - 1) as nat, m);
        let prev = |j: int| xsum(|i: int| f(i, j), (n - 1) as nat);
        let last = |j: int| f(n - 1, j);
        let cur = |j: int| xsum(|i: int| f(i, j), n);
        lemma_xsum_add(prev, last, cur, m);
        assert(xsum(|i: int| xsum(|j: int| f(i, j), m), n)
            == (xsum(|i: int| xsum(|j: int| f(i, j), m), (n - 1) as nat) ^ xsum(last, m)) as u8);
        lemma_xsum_ext(|j: int| xsum(|i: int| f(i, j), (n - 1) as nat), prev, m);
    }
}

/// `(a * b) * x == a * (b * x)` for square matrices and a vector.
pub proof fn lemma_mat_vec_assoc(a: Seq<Seq<u8>>, b: Seq<Seq<u8>>, x: Seq<u8>, i: int, n: nat)
    ensures
        xsum(|c: int| gf_mul_spec(mat_mul_at(a, b, i, c, n), x[c]), n)
            == xsum(|k: int| gf_mul_spec(a[i][k], mat_vec_at(b, x, k, n)), n),
{
    let f = |k: int, c: int| gf_mul_spec(a[i][k], gf_mul_spec(b[k][c], x[c]));
    lemma_xsum_swap(f, n, n);
    let lhs = |c: int| gf_mul_spec(mat_mul_at(a, b, i, c, n), x[c]);
    let mid1 = |c: int| xsum(|k: int| f(k, c), n);
    assert forall|c: int| 0 <= c < n implies #[trigger] lhs(c) == mid1(c) by {
        let col = |k: int| f(k, c);
        let prod = |k: int| gf_mul_spec(a[i][k], b[k][c]);
        assert forall|k: int| 0 <= k < n implies #[trigger] col(k) == gf_mul_spec(prod(k), x[c]) by {
            lemma_mul_assoc(a[i][k], b[k][c], x[c]);
        }
        lemma_xsum_scale_right(x[c], prod, col, n);
        lemma_xsum_ext(col, |k: int| f(k, c), n);
    }
    lemma_xsum_ext(lhs, mid1, n);
    let rhs = |k: int| gf_mul_spec(a[i][k], mat_vec_at(b, x, k, n));
    let mid2 = |k: int| xsum(|c: int| f(k, c), n);
    assert forall|k: int| 0 <= k < n implies #[trigger] rhs(k) == mid2(k) by {
        let row = |c: int| f(k, c);
        let bx = |c: int| gf_mul_spec(b[k][c], x[c]);
        assert forall|c: int| 0 <= c < n implies #[trigger] row(c) == gf_mul_spec(a[i][k], bx(c)) by {}
        lemma_xsum_scale(a[i][k], bx, row, n);
        lemma_xsum_ext(row, |c: int| f(k, c), n);
        lemma_xsum_ext(bx, |c: int| gf_mul_spec(b[k][c], x[c]), n);
    }
    lemma_xsum_ext(rhs, mid2, n);
}

/// A matrix with a non-trivial kernel has no left inverse.
pub proof fn lemma_singular_no_left_inverse(m: Seq<Seq<u8>>, inv: Seq<Seq<u8>>, n: nat)
    requires
        singular(m, n),
    ensures
        !is_inverse_pair(inv, m, n),
{
    if !is_inverse_pair(inv, m, n) {
        return;
    }
    let x = choose|x: Seq<u8>| nonzero_vec(x, n) && in_kernel(m, x, n);
    let c0 = choose|c: int| 0 <= c < n && x[c] != 0;
    lemma_mat_vec_assoc(inv, m, x, c0, n);
    let r = |k: int| gf_mul_spec(inv[c0][k], mat_vec_at(m, x, k, n));
    assert forall|k: int| 0 <= k < n implies #[trigger] r(k) == 0 by {
        lemma_mul_zero(inv[c0][k]);
    }
    lemma_xsum_zero(r, n);
    let g = |c: int| gf_mul_spec(mat_mul_at(inv, m, c0, c, n), x[c]);
    assert forall|c: int| 0 <= c < n && c != c0 implies #[trigger] g(c) == 0 by {
        assert(mat_mul_at(inv, m, c0, c, n) == ident(c0, c));
        lemma_mul_zero(x[c]);
    }
    assert(mat_mul_at(inv, m, c0, c0, n) == ident(c0, c0));
    lemma_mul_one(x[c0]);
    lemma_xsum_single(g, n, c0);
}

/// Two-sided inverses are unique.
pub proof fn lemma_inverse_unique(a: Seq<Seq<u8>>, b: Seq<Seq<u8>>, m: Seq<Seq<u8>>, n: nat)
    requires
        is_inverse_of(a, m, n),
        is_inverse_of(b, m, n),
    ensures
        forall|i: int, j: int| 0 <= i < n && 0 <= j < n ==> a[i][j] == b[i][j],
{
    assert forall|i: int, j: int| 0 <= i < n && 0 <= j < n implies a[i][j] == b[i][j] by {
        // a = a (m b) = (a m) b = b
        let col = Seq::new(n, |k: int| b[k][j]);
        lemma_mat_vec_assoc(a, m, col, i, n);
        let f1 = |c: int| gf_mul_spec(mat_mul_at(a, m, i, c, n), col[c]);
        assert forall|c: int| 0 <= c < n && c != i implies #[trigger] f1(c) == 0 by {
            assert(mat_mul_at(a, m, i, c, n) == ident(i, c));
            lemma_mul_zero(col[c]);
        }
        assert(mat_mul_at(a, m, i, i, n) == ident(i, i));
        lemma_mul_one(col[i]);
        lemma_xsum_single(f1, n, i);
        let f2 = |k: int| gf_mul_spec(a[i][k], mat_vec_at(m, col, k, n));
        assert forall|k: int| 0 <= k < n implies #[trigger] mat_vec_at(m, col, k, n) == ident(k, j) by {
            let u = |c: int| gf_mul_spec(m[k][c], col[c]);
            let v = |c: int| gf_mul_spec(m[k][c], b[c][j]);
            assert forall|c: int| 0 <= c < n implies #[trigger] u(c) == v(c) by {}
            lemma_xsum_ext(u, v, n);
            assert(mat_mul_at(m, b, k, j, n) == ident(k, j));
        }
        assert forall|k: int| 0 <= k < n && k != j implies #[trigger] f2(k) == 0 by {
            lemma_mul_zero(a[i][k]);
        }
        lemma_mul_one(a[i][j]);
        lemma_xsum_single(f2, n, j);
    }
}


/// Splitting off the first term of a sum.
pub proof fn lemma_xsum_first(f: spec_fn(int) -> u8, g: spec_fn(int) -> u8, n: nat)
    requires
        n >= 1,
        forall|j: int| 0 <= j < n - 1 ==> #[trigger] g(j) == f(j + 1),
    ensures
        xsum(f, n) == (f(0) ^ xsum(g, (n - 1) as nat)) as u8,
    decreases n,
{
    if n == 1 {
        assert(xsum(f, 0) == 0);
        assert(xsum(g, 0) == 0);
        assert(xsum(f, 1) == (xsum(f, 0) ^ f(0)) as u8);
        lemma_xor_comm_assoc(f(0), 0, 0, 0);
    } else {
        lemma_xsum_first(f, g, (n - 1) as nat);
        assert(g(n - 2) == f(n - 1));
        assert(xsum(g, (n - 1) as nat) == (xsum(g, (n - 2) as nat) ^ g(n - 2)) as u8);
        assert(xsum(f, n) == (xsum(f, (n - 1) as nat) ^ f(n - 1)) as u8);
        lemma_xor_comm_assoc(f(0), xsum(g, (n - 2) as nat), g(n - 2), 0);
    }
}

} // verus!
