//! The invariants of Gauss-Jordan elimination on an augmented matrix
//! `[L | R]` and the row operations that preserve them.
//!
//! Writing `m` for the matrix being inverted, elimination keeps
//! `L = R * m` row by row, and carries a companion matrix `q` (changed by
//! the inverse column operations) with `q * [L | R] = [m | I]`.
use vstd::prelude::*;
use crate::gf256::{gf_mul_spec, inv_spec, lemma_inv, lemma_mul_assoc, lemma_mul_comm, lemma_mul_distrib,
    lemma_mul_distrib_left, lemma_mul_one, lemma_mul_zero};
use crate::linalg::{xsum, has_shape, is_inverse_of, ident, mat_vec_at, mat_mul_at, singular, nonzero_vec, in_kernel,
    lemma_xsum_ext, lemma_xsum_zero, lemma_xsum_add, lemma_xsum_scale, lemma_xsum_scale_right,
    lemma_xsum_single, lemma_xsum_two, lemma_xsum_two_change, lemma_mat_vec_assoc, lemma_xor_comm_assoc};

verus! {

/// Row `r`, column `j` of the left half equals row `r` of the right half times `m`.
pub open spec fn left_ok(aug: Seq<Seq<u8>>, m: Seq<Seq<u8>>, n: nat, r: int, j: int) -> bool {
    aug[r][j] == xsum(|k: int| gf_mul_spec(aug[r][n + k], m[k][j]), n)
}

/// Entry `(i, j)` of `[m | I]`.
pub open spec fn target(m: Seq<Seq<u8>>, n: nat, i: int, j: int) -> u8 {
    if j < n { m[i][j] } else { ident(i, j - n) }
}

/// Entry `(i, j)` of `q * aug` equals entry `(i, j)` of `[m | I]`.
pub open spec fn prod_ok(q: Seq<Seq<u8>>, aug: Seq<Seq<u8>>, m: Seq<Seq<u8>>, n: nat, i: int, j: int) -> bool {
    xsum(|k: int| gf_mul_spec(q[i][k], aug[k][j]), n) == target(m, n, i, j)
}

pub open spec fn shapes_ok(q: Seq<Seq<u8>>, aug: Seq<Seq<u8>>, m: Seq<Seq<u8>>, n: nat) -> bool {
    &&& aug.len() == n
    &&& q.len() == n
    &&& m.len() >= n
    &&& forall|r: int| 0 <= r < n ==> #[trigger] aug[r].len() == 2 * n
    &&& forall|r: int| 0 <= r < n ==> #[trigger] q[r].len() == n
    &&& forall|r: int| 0 <= r < n ==> #[trigger] m[r].len() >= n
}

pub open spec fn elim_inv(q: Seq<Seq<u8>>, aug: Seq<Seq<u8>>, m: Seq<Seq<u8>>, n: nat) -> bool {
    &&& shapes_ok(q, aug, m, n)
    &&& forall|r: int, j: int| 0 <= r < n && 0 <= j < n ==> #[trigger] left_ok(aug, m, n, r, j)
    &&& forall|i: int, j: int| 0 <= i < n && 0 <= j < 2 * n ==> #[trigger] prod_ok(q, aug, m, n, i, j)
}

/// The first `col` columns of the left half are those of the identity.
pub open spec fn reduced(aug: Seq<Seq<u8>>, n: nat, col: int) -> bool {
    forall|r: int, c: int| 0 <= r < n && 0 <= c < col ==> #[trigger] aug[r][c] == ident(r, c)
}

pub open spec fn swap_rows(aug: Seq<Seq<u8>>, a: int, b: int) -> Seq<Seq<u8>> {
    aug.update(a, aug[b]).update(b, aug[a])
}

pub open spec fn swap_cols(q: Seq<Seq<u8>>, a: int, b: int) -> Seq<Seq<u8>> {
    Seq::new(q.len(), |i: int| q[i].update(a, q[i][b]).update(b, q[i][a]))
}

pub open spec fn scaled_row(row: Seq<u8>, s: u8) -> Seq<u8> {
    Seq::new(row.len(), |j: int| gf_mul_spec(row[j], s))
}

pub open spec fn scale_col(q: Seq<Seq<u8>>, c: int, p: u8) -> Seq<Seq<u8>> {
    Seq::new(q.len(), |i: int| q[i].update(c, gf_mul_spec(q[i][c], p)))
}

pub open spec fn elim_row(row: Seq<u8>, pivot: Seq<u8>, t: u8) -> Seq<u8> {
    Seq::new(row.len(), |j: int| (row[j] ^ gf_mul_spec(t, pivot[j])) as u8)
}

pub open spec fn elim_col(q: Seq<Seq<u8>>, r: int, c: int, t: u8) -> Seq<Seq<u8>> {
    Seq::new(q.len(), |i: int| q[i].update(c, (q[i][c] ^ gf_mul_spec(t, q[i][r])) as u8))
}

/// The starting point: `[m | I]` with `q = I`.
pub proof fn lemma_init(q: Seq<Seq<u8>>, aug: Seq<Seq<u8>>, m: Seq<Seq<u8>>, n: nat)
    requires
        shapes_ok(q, aug, m, n),
        forall|i: int, k: int| 0 <= i < n && 0 <= k < n ==> #[trigger] q[i][k] == ident(i, k),
        forall|r: int, j: int| 0 <= r < n && 0 <= j < 2 * n ==> #[trigger] aug[r][j] == target(m, n, r, j),
    ensures
        elim_inv(q, aug, m, n),
{
    assert forall|r: int, j: int| 0 <= r < n && 0 <= j < n implies #[trigger] left_ok(aug, m, n, r, j) by {
        let f = |k: int| gf_mul_spec(aug[r][n + k], m[k][j]);
        assert forall|k: int| 0 <= k < n && k != r implies #[trigger] f(k) == 0 by {
            assert(aug[r][n + k] == target(m, n, r, n + k));
            lemma_mul_zero(m[k][j]);
        }
        assert(aug[r][n + r] == target(m, n, r, n + r));
        lemma_mul_one(m[r][j]);
        lemma_xsum_single(f, n, r);
    }
    assert forall|i: int, j: int| 0 <= i < n && 0 <= j < 2 * n implies #[trigger] prod_ok(q, aug, m, n, i, j) by {
        let f = |k: int| gf_mul_spec(q[i][k], aug[k][j]);
        assert forall|k: int| 0 <= k < n && k != i implies #[trigger] f(k) == 0 by {
            lemma_mul_zero(aug[k][j]);
        }
        lemma_mul_one(aug[i][j]);
        lemma_xsum_single(f, n, i);
    }
}

pub proof fn lemma_swap(q: Seq<Seq<u8>>, aug: Seq<Seq<u8>>, m: Seq<Seq<u8>>, n: nat, a: int, b: int)
    requires
        elim_inv(q, aug, m, n),
        0 <= a < n,
        0 <= b < n,
        a != b,
    ensures
        elim_inv(swap_cols(q, a, b), swap_rows(aug, a, b), m, n),
{
    let q2 = swap_cols(q, a, b);
    let aug2 = swap_rows(aug, a, b);
    assert forall|r: int| 0 <= r < n implies #[trigger] aug2[r].len() == 2 * n by {}
    assert forall|r: int| 0 <= r < n implies #[trigger] q2[r].len() == n by {}
    assert forall|r: int, j: int| 0 <= r < n && 0 <= j < n implies #[trigger] left_ok(aug2, m, n, r, j) by {
        let r0 = if r == a { b } else if r == b { a } else { r };
        assert(left_ok(aug, m, n, r0, j));
        assert(aug2[r] == aug[r0]);
    }
    assert forall|i: int, j: int| 0 <= i < n && 0 <= j < 2 * n implies #[trigger] prod_ok(q2, aug2, m, n, i, j) by {
        assert(prod_ok(q, aug, m, n, i, j));
        let f = |k: int| gf_mul_spec(q2[i][k], aug2[k][j]);
        let g = |k: int| gf_mul_spec(q[i][k], aug[k][j]);
        assert forall|k: int| 0 <= k < n && k != a && k != b implies #[trigger] f(k) == g(k) by {}
        assert(f(a) == g(b));
        assert(f(b) == g(a));
        lemma_xor_comm_assoc(g(a), g(b), 0, 0);
        lemma_xsum_two_change(f, g, n, a, b);
    }
}

pub proof fn lemma_scale(q: Seq<Seq<u8>>, aug: Seq<Seq<u8>>, m: Seq<Seq<u8>>, n: nat, c: int, s: u8, p: u8)
    requires
        elim_inv(q, aug, m, n),
        0 <= c < n,
        gf_mul_spec(p, s) == 1,
    ensures
        elim_inv(scale_col(q, c, p), aug.update(c, scaled_row(aug[c], s)), m, n),
{
    let q2 = scale_col(q, c, p);
    let aug2 = aug.update(c, scaled_row(aug[c], s));
    assert forall|r: int| 0 <= r < n implies #[trigger] aug2[r].len() == 2 * n by {}
    assert forall|r: int| 0 <= r < n implies #[trigger] q2[r].len() == n by {}
    assert forall|r: int, j: int| 0 <= r < n && 0 <= j < n implies #[trigger] left_ok(aug2, m, n, r, j) by {
        assert(left_ok(aug, m, n, r, j));
        if r == c {
            let f = |k: int| gf_mul_spec(aug[c][n + k], m[k][j]);
            let g = |k: int| gf_mul_spec(aug2[c][n + k], m[k][j]);
            assert forall|k: int| 0 <= k < n implies #[trigger] g(k) == gf_mul_spec(f(k), s) by {
                let rv = aug[c][n + k];
                let mv = m[k][j];
                lemma_mul_assoc(rv, mv, s);
                lemma_mul_comm(mv, s);
                lemma_mul_assoc(rv, s, mv);
            }
            lemma_xsum_scale_right(s, f, g, n);
        }
    }
    assert forall|i: int, j: int| 0 <= i < n && 0 <= j < 2 * n implies #[trigger] prod_ok(q2, aug2, m, n, i, j) by {
        assert(prod_ok(q, aug, m, n, i, j));
        let f = |k: int| gf_mul_spec(q2[i][k], aug2[k][j]);
        let g = |k: int| gf_mul_spec(q[i][k], aug[k][j]);
        assert forall|k: int| 0 <= k < n implies #[trigger] f(k) == g(k) by {
            if k == c {
                let qv = q[i][c];
                let av = aug[c][j];
                // (q p)(a s) = q (p (a s)) = q (p (s a)) = q ((p s) a) = q a
                lemma_mul_assoc(qv, p, gf_mul_spec(av, s));
                lemma_mul_comm(av, s);
                lemma_mul_assoc(p, s, av);
                lemma_mul_one(av);
            }
        }
        lemma_xsum_ext(f, g, n);
    }
}

proof fn lemma_xor_cancel(g1: u8, g2: u8, x: u8)
    ensures ((g1 ^ x) as u8 ^ (g2 ^ x) as u8) as u8 == (g1 ^ g2) as u8,
{
    assert(((g1 ^ x) as u8 ^ (g2 ^ x) as u8) as u8 == (g1 ^ g2) as u8) by (bit_vector);
}

pub proof fn lemma_elim(q: Seq<Seq<u8>>, aug: Seq<Seq<u8>>, m: Seq<Seq<u8>>, n: nat, r: int, c: int, t: u8)
    requires
        elim_inv(q, aug, m, n),
        0 <= r < n,
        0 <= c < n,
        r != c,
    ensures
        elim_inv(elim_col(q, r, c, t), aug.update(r, elim_row(aug[r], aug[c], t)), m, n),
{
    let q2 = elim_col(q, r, c, t);
    let aug2 = aug.update(r, elim_row(aug[r], aug[c], t));
    assert forall|x: int| 0 <= x < n implies #[trigger] aug2[x].len() == 2 * n by {}
    assert forall|x: int| 0 <= x < n implies #[trigger] q2[x].len() == n by {}
    assert forall|x: int, j: int| 0 <= x < n && 0 <= j < n implies #[trigger] left_ok(aug2, m, n, x, j) by {
        assert(left_ok(aug, m, n, x, j));
        if x == r {
            assert(left_ok(aug, m, n, c, j));
            let fr = |k: int| gf_mul_spec(aug[r][n + k], m[k][j]);
            let fc = |k: int| gf_mul_spec(aug[c][n + k], m[k][j]);
            let tfc = |k: int| gf_mul_spec(t, fc(k));
            let g = |k: int| gf_mul_spec(aug2[r][n + k], m[k][j]);
            lemma_xsum_scale(t, fc, tfc, n);
            assert forall|k: int| 0 <= k < n implies #[trigger] g(k) == (fr(k) ^ tfc(k)) as u8 by {
                let a = aug[r][n + k];
                let b = aug[c][n + k];
                let mv = m[k][j];
                lemma_mul_distrib_left(a, gf_mul_spec(t, b), mv);
                lemma_mul_assoc(t, b, mv);
            }
            lemma_xsum_add(fr, tfc, g, n);
        }
    }
    assert forall|i: int, j: int| 0 <= i < n && 0 <= j < 2 * n implies #[trigger] prod_ok(q2, aug2, m, n, i, j) by {
        assert(prod_ok(q, aug, m, n, i, j));
        let f = |k: int| gf_mul_spec(q2[i][k], aug2[k][j]);
        let g = |k: int| gf_mul_spec(q[i][k], aug[k][j]);
        assert forall|k: int| 0 <= k < n && k != r && k != c implies #[trigger] f(k) == g(k) by {}
        let qr = q[i][r];
        let qc = q[i][c];
        let ar = aug[r][j];
        let ac = aug[c][j];
        let x = gf_mul_spec(qr, gf_mul_spec(t, ac));
        lemma_mul_distrib(qr, ar, gf_mul_spec(t, ac));
        assert(f(r) == (g(r) ^ x) as u8);
        lemma_mul_distrib_left(qc, gf_mul_spec(t, qr), ac);
        lemma_mul_assoc(t, qr, ac);
        lemma_mul_comm(t, qr);
        lemma_mul_assoc(qr, t, ac);
        assert(f(c) == (g(c) ^ x) as u8);
        lemma_xor_cancel(g(r), g(c), x);
        lemma_xsum_two_change(f, g, n, r, c);
    }
}

/// When no row at or below `col` has a non-zero entry in column `col`,
/// the matrix being inverted is singular.
pub proof fn lemma_no_pivot(q: Seq<Seq<u8>>, aug: Seq<Seq<u8>>, m: Seq<Seq<u8>>, n: nat, col: int)
    requires
        elim_inv(q, aug, m, n),
        reduced(aug, n, col),
        0 <= col < n,
        forall|r: int| col <= r < n ==> #[trigger] aug[r][col] == 0,
    ensures
        singular(m, n),
{
    let x = Seq::new(n, |c: int| if c < col { aug[c][col] } else if c == col { 1u8 } else { 0u8 });
    assert forall|r: int| 0 <= r < n implies #[trigger] mat_vec_at(aug, x, r, n) == 0 by {
        let f = |c: int| gf_mul_spec(aug[r][c], x[c]);
        if r < col {
            assert forall|c: int| 0 <= c < n && c != r && c != col implies #[trigger] f(c) == 0 by {
                if c < col {
                    assert(aug[r][c] == ident(r, c));
                    lemma_mul_zero(x[c]);
                } else {
                    lemma_mul_zero(aug[r][c]);
                }
            }
            assert(aug[r][r] == ident(r, r));
            lemma_mul_one(aug[r][col]);
            lemma_xsum_two(f, n, r, col);
            lemma_xor_comm_assoc(aug[r][col], 0, 0, 0);
        } else {
            assert forall|c: int| 0 <= c < n implies #[trigger] f(c) == 0 by {
                if c < col {
                    assert(aug[r][c] == ident(r, c));
                    lemma_mul_zero(x[c]);
                } else if c == col {
                    lemma_mul_zero(1);
                } else {
                    lemma_mul_zero(aug[r][c]);
                }
            }
            lemma_xsum_zero(f, n);
        }
    }
    assert forall|i: int| 0 <= i < n implies #[trigger] mat_vec_at(m, x, i, n) == 0 by {
        lemma_mat_vec_assoc(q, aug, x, i, n);
        let lhs = |c: int| gf_mul_spec(mat_mul_at(q, aug, i, c, n), x[c]);
        let mv = |c: int| gf_mul_spec(m[i][c], x[c]);
        assert forall|c: int| 0 <= c < n implies #[trigger] lhs(c) == mv(c) by {
            assert(prod_ok(q, aug, m, n, i, c));
        }
        lemma_xsum_ext(lhs, mv, n);
        let rhs = |k: int| gf_mul_spec(q[i][k], mat_vec_at(aug, x, k, n));
        assert forall|k: int| 0 <= k < n implies #[trigger] rhs(k) == 0 by {
            lemma_mul_zero(q[i][k]);
        }
        lemma_xsum_zero(rhs, n);
    }
    assert(x[col] != 0);
    assert(nonzero_vec(x, n));
    assert(in_kernel(m, x, n));
}


/// The right half of the augmented matrix.
pub open spec fn right_half(aug: Seq<Seq<u8>>, n: nat) -> Seq<Seq<u8>> {
    Seq::new(n, |i: int| Seq::new(n, |j: int| aug[i][n + j]))
}

/// Once the left half is the identity, the right half is the inverse.
pub proof fn lemma_finish(q: Seq<Seq<u8>>, aug: Seq<Seq<u8>>, m: Seq<Seq<u8>>, n: nat)
    requires
        elim_inv(q, aug, m, n),
        reduced(aug, n, n as int),
    ensures
        is_inverse_of(right_half(aug, n), m, n),
{
    let res = right_half(aug, n);
    assert forall|i: int, j: int| 0 <= i < n && 0 <= j < n implies #[trigger] mat_mul_at(res, m, i, j, n) == ident(i, j) by {
        assert(left_ok(aug, m, n, i, j));
        let f = |k: int| gf_mul_spec(res[i][k], m[k][j]);
        let g = |k: int| gf_mul_spec(aug[i][n + k], m[k][j]);
        assert forall|k: int| 0 <= k < n implies #[trigger] f(k) == g(k) by {}
        lemma_xsum_ext(f, g, n);
        assert(aug[i][j] == ident(i, j));
    }
    assert forall|i: int, j: int| 0 <= i < n && 0 <= j < n implies #[trigger] q[i][j] == m[i][j] by {
        assert(prod_ok(q, aug, m, n, i, j));
        let f = |k: int| gf_mul_spec(q[i][k], aug[k][j]);
        assert forall|k: int| 0 <= k < n && k != j implies #[trigger] f(k) == 0 by {
            assert(aug[k][j] == ident(k, j));
            lemma_mul_zero(q[i][k]);
        }
        assert(aug[j][j] == ident(j, j));
        lemma_mul_one(q[i][j]);
        lemma_xsum_single(f, n, j);
    }
    assert forall|i: int, j: int| 0 <= i < n && 0 <= j < n implies #[trigger] mat_mul_at(m, res, i, j, n) == ident(i, j) by {
        assert(prod_ok(q, aug, m, n, i, n + j));
        let f = |k: int| gf_mul_spec(m[i][k], res[k][j]);
        let g = |k: int| gf_mul_spec(q[i][k], aug[k][n + j]);
        assert forall|k: int| 0 <= k < n implies #[trigger] f(k) == g(k) by {
            assert(q[i][k] == m[i][k]);
        }
        lemma_xsum_ext(f, g, n);
    }
    assert(has_shape(res, n, n));
}


/// Clears column `col` (whose pivot entry is one) in the rows from `row` on,
/// leaving the first `col + 1` columns of the left half reduced.
proof fn lemma_clear_column(q: Seq<Seq<u8>>, aug: Seq<Seq<u8>>, m: Seq<Seq<u8>>, n: nat, col: int, row: int)
    -> (r: (Seq<Seq<u8>>, Seq<Seq<u8>>))
    requires
        elim_inv(q, aug, m, n),
        reduced(aug, n, col),
        0 <= col < n,
        0 <= row <= n,
        aug[col][col] == 1,
        forall|x: int| 0 <= x < row && x != col ==> #[trigger] aug[x][col] == 0,
    ensures
        elim_inv(r.0, r.1, m, n),
        reduced(r.1, n, col + 1),
    decreases n - row,
{
    if row == n {
        assert forall|x: int, c: int| 0 <= x < n && 0 <= c < col + 1 implies #[trigger] aug[x][c] == ident(x, c) by {
            if c == col && x != col {
                assert(aug[x][col] == 0);
            }
        }
        (q, aug)
    } else if row == col {
        lemma_clear_column(q, aug, m, n, col, row + 1)
    } else {
        let t = aug[row][col];
        lemma_elim(q, aug, m, n, row, col, t);
        let q2 = elim_col(q, row, col, t);
        let aug2 = aug.update(row, elim_row(aug[row], aug[col], t));
        assert(aug[row].len() == 2 * n && aug[col].len() == 2 * n);
        lemma_mul_zero(t);
        lemma_mul_one(t);
        assert forall|x: int, c: int| 0 <= x < n && 0 <= c < col implies #[trigger] aug2[x][c] == ident(x, c) by {
            assert(aug[x][c] == ident(x, c));
            if x == row {
                assert(aug[col][c] == ident(col, c));
                lemma_xor_comm_assoc(aug[x][c], 0u8, 0u8, 0u8);
            }
        }
        lemma_xor_comm_assoc(t, t, 0u8, 0u8);
        assert(aug2[row][col] == 0);
        assert forall|x: int| 0 <= x < row + 1 && x != col implies #[trigger] aug2[x][col] == 0 by {
            if x != row {
                assert(aug[x][col] == 0);
            }
        }
        lemma_clear_column(q2, aug2, m, n, col, row + 1)
    }
}

/// Elimination from column `col` on finds an inverse of a matrix that maps
/// no non-zero vector to zero.
proof fn lemma_eliminate_from(q: Seq<Seq<u8>>, aug: Seq<Seq<u8>>, m: Seq<Seq<u8>>, n: nat, col: int)
    -> (inv: Seq<Seq<u8>>)
    requires
        elim_inv(q, aug, m, n),
        reduced(aug, n, col),
        0 <= col <= n,
        !singular(m, n),
    ensures
        is_inverse_of(inv, m, n),
    decreases n - col,
{
    if col == n {
        lemma_finish(q, aug, m, n);
        right_half(aug, n)
    } else {
        if forall|x: int| col <= x < n ==> #[trigger] aug[x][col] == 0 {
            lemma_no_pivot(q, aug, m, n, col);
        }
        let pr = choose|x: int| col <= x < n && #[trigger] aug[x][col] != 0;
        let q1 = if pr != col { swap_cols(q, col, pr) } else { q };
        let aug1 = if pr != col { swap_rows(aug, col, pr) } else { aug };
        if pr != col {
            lemma_swap(q, aug, m, n, col, pr);
            assert forall|x: int, c: int| 0 <= x < n && 0 <= c < col implies #[trigger] aug1[x][c] == ident(x, c) by {
                if x == col {
                    assert(aug[pr][c] == ident(pr, c));
                } else if x == pr {
                    assert(aug[col][c] == ident(col, c));
                } else {
                    assert(aug[x][c] == ident(x, c));
                }
            }
        }
        let pv = aug1[col][col];
        assert(pv != 0);
        lemma_inv(pv);
        let sc = inv_spec(pv);
        lemma_scale(q1, aug1, m, n, col, sc, pv);
        let q2 = scale_col(q1, col, pv);
        let aug2 = aug1.update(col, scaled_row(aug1[col], sc));
        assert(aug1[col].len() == 2 * n);
        lemma_mul_zero(sc);
        lemma_mul_comm(pv, sc);
        assert forall|x: int, c: int| 0 <= x < n && 0 <= c < col implies #[trigger] aug2[x][c] == ident(x, c) by {
            assert(aug1[x][c] == ident(x, c));
        }
        assert(aug2[col][col] == 1);
        let (q3, aug3) = lemma_clear_column(q2, aug2, m, n, col, 0);
        lemma_eliminate_from(q3, aug3, m, n, col + 1)
    }
}

/// A square matrix that maps no non-zero vector to zero has a two-sided
/// inverse.
pub proof fn lemma_nonsingular_invertible(m: Seq<Seq<u8>>, n: nat)
    requires
        m.len() >= n,
        forall|r: int| 0 <= r < n ==> #[trigger] m[r].len() >= n,
        !singular(m, n),
    ensures
        exists|inv: Seq<Seq<u8>>| is_inverse_of(inv, m, n),
{
    let q = Seq::new(n, |a: int| Seq::new(n, |b: int| ident(a, b)));
    let aug = Seq::new(n, |r: int| Seq::new(2 * n, |j: int| target(m, n, r, j)));
    lemma_init(q, aug, m, n);
    let inv = lemma_eliminate_from(q, aug, m, n, 0);
    assert(is_inverse_of(inv, m, n));
}

} // verus!
