//! Systematic Reed-Solomon erasure coding over GF(2^8).
use vstd::prelude::*;
use vstd::slice::SliceAdditionalExecFns;
use crate::gf256::{gf_mul, gf_inv, gf_pow, gf_exp, gf_mul_spec, pow_spec, lemma_mul_zero, lemma_mul_one,
    lemma_mul_comm,
    lemma_pow3_distinct};
use crate::linalg::{xsum, ident, is_inverse_of, singular, has_shape, lemma_singular_no_left_inverse,
    mat_vec_at, mat_mul_at, lemma_mat_vec_assoc, lemma_xsum_ext, lemma_xsum_single,
    lemma_inverse_unique, nonzero_vec, in_kernel, is_inverse_pair, lemma_xsum_zero};
use crate::poly::{distinct_nodes, lemma_vandermonde_nonsingular};
use crate::text::{dec, usize_to_string};
use crate::gauss::{elim_inv, reduced, target, swap_rows, swap_cols, scaled_row, scale_col, elim_row,
    elim_col, right_half, lemma_init, lemma_swap, lemma_scale, lemma_elim, lemma_no_pivot, lemma_finish,
    shapes_ok, lemma_nonsingular_invertible};

verus! {

/// The rows of a matrix of byte vectors, as sequences.
pub open spec fn rows_view(v: Seq<Vec<u8>>) -> Seq<Seq<u8>> {
    Seq::new(v.len(), |i: int| v[i]@)
}

/// Inverts the `size` by `size` matrix in the top-left corner of `matrix`
/// by Gauss-Jordan elimination; `None` when it is singular.
pub fn invert_matrix(matrix: &[Vec<u8>], size: usize) -> (res: Option<Vec<Vec<u8>>>)
    requires
        2 * size <= usize::MAX,
        matrix@.len() >= size,
        forall|i: int| 0 <= i < size ==> #[trigger] matrix@[i]@.len() >= size,
    ensures
        match res {
            Some(inv) => is_inverse_of(rows_view(inv@), rows_view(matrix@), size as nat),
            None => singular(rows_view(matrix@), size as nat),
        },
{
    let ghost m = rows_view(matrix@);
    let ghost n = size as nat;
    let n2 = 2 * size;
    let mut aug: Vec<Vec<u8>> = Vec::new();
    let mut i: usize = 0;
    while i < size
        invariant
            i <= size,
            n == size,
            n2 == 2 * size,
            m == rows_view(matrix@),
            matrix@.len() >= size,
            forall|r: int| 0 <= r < size ==> #[trigger] matrix@[r]@.len() >= size,
            aug@.len() == i,
            forall|r: int| 0 <= r < i ==> #[trigger] aug@[r]@.len() == n2,
            forall|r: int, j: int| 0 <= r < i && 0 <= j < n2 ==> #[trigger] aug@[r]@[j] == target(m, n, r, j),
        decreases size - i,
    {
        let mut row: Vec<u8> = Vec::new();
        let mut j: usize = 0;
        while j < n2
            invariant
                i < size,
                j <= n2,
                n == size,
                n2 == 2 * size,
                m == rows_view(matrix@),
                matrix@.len() >= size,
                forall|r: int| 0 <= r < size ==> #[trigger] matrix@[r]@.len() >= size,
                row@.len() == j,
                forall|jj: int| 0 <= jj < j ==> #[trigger] row@[jj] == target(m, n, i as int, jj),
            decreases n2 - j,
        {
            assert(m[i as int] == matrix@[i as int]@);
            if j < size {
                row.push(matrix[i][j]);
            } else if j - size == i {
                row.push(1);
            } else {
                row.push(0);
            }
            j += 1;
        }
        aug.push(row);
        i += 1;
    }
    let ghost mut q: Seq<Seq<u8>> = Seq::new(n, |a: int| Seq::new(n, |b: int| ident(a, b)));
    proof {
        let av = rows_view(aug@);
        assert forall|r: int, j: int| 0 <= r < n && 0 <= j < 2 * n implies #[trigger] av[r][j] == target(m, n, r, j) by {
            assert(aug@[r]@[j] == target(m, n, r, j));
        }
        lemma_init(q, av, m, n);
    }
    let mut col: usize = 0;
    while col < size
        invariant
            col <= size,
            n == size,
            n2 == 2 * size,
            m == rows_view(matrix@),
            aug@.len() == size,
            elim_inv(q, rows_view(aug@), m, n),
            reduced(rows_view(aug@), n, col as int),
        decreases size - col,
    {
        let ghost av0 = rows_view(aug@);
        assert(forall|r: int| 0 <= r < size ==> #[trigger] aug@[r]@.len() == n2) by {
            assert forall|r: int| 0 <= r < size implies #[trigger] aug@[r]@.len() == n2 by {
                assert(av0[r].len() == n2);
            }
        }
        // Look for a row with a non-zero entry in this column.
        let mut pivot_row: usize = size;
        let mut row: usize = col;
        while row < size && pivot_row == size
            invariant
                col <= row <= size,
                col < size,
                aug@.len() == size,
                av0 == rows_view(aug@),
                forall|r: int| 0 <= r < size ==> #[trigger] aug@[r]@.len() == n2,
                n2 == 2 * size,
                pivot_row == size ==> forall|r: int| col <= r < row ==> #[trigger] av0[r][col as int] == 0,
                pivot_row != size ==> col <= pivot_row < size && av0[pivot_row as int][col as int] != 0,
            decreases size - row,
        {
            if aug[row][col] != 0 {
                pivot_row = row;
            }
            row += 1;
        }
        if pivot_row == size {
            proof {
                lemma_no_pivot(q, av0, m, n, col as int);
            }
            return None;
        }
        if pivot_row != col {
            let temp = aug[col].clone();
            let other = aug[pivot_row].clone();
            aug.set(col, other);
            aug.set(pivot_row, temp);
            proof {
                lemma_swap(q, av0, m, n, col as int, pivot_row as int);
                q = swap_cols(q, col as int, pivot_row as int);
                assert(rows_view(aug@) =~= swap_rows(av0, col as int, pivot_row as int));
                let av1 = rows_view(aug@);
                assert forall|r: int, c: int| 0 <= r < n && 0 <= c < col implies #[trigger] av1[r][c] == ident(r, c) by {
                    if r == col as int {
                        assert(av0[pivot_row as int][c] == ident(pivot_row as int, c));
                    } else if r == pivot_row as int {
                        assert(av0[col as int][c] == ident(col as int, c));
                    } else {
                        assert(av0[r][c] == ident(r, c));
                    }
                }
            }
        }
        let ghost av1 = rows_view(aug@);
        assert(forall|r: int| 0 <= r < size ==> #[trigger] aug@[r]@.len() == n2) by {
            assert forall|r: int| 0 <= r < size implies #[trigger] aug@[r]@.len() == n2 by {
                assert(av1[r].len() == n2);
            }
        }
        // Scale the pivot row so that the pivot becomes one.
        let pv = aug[col][col];
        assert(pv != 0);
        let inv_pivot = gf_inv(pv);
        let mut scaled: Vec<u8> = Vec::new();
        let mut j: usize = 0;
        while j < n2
            invariant
                j <= n2,
                col < size,
                aug@.len() == size,
                av1 == rows_view(aug@),
                av1[col as int].len() == n2,
                scaled@.len() == j,
                forall|jj: int| 0 <= jj < j ==> #[trigger] scaled@[jj] == gf_mul_spec(av1[col as int][jj], inv_pivot),
            decreases n2 - j,
        {
            let v = gf_mul(aug[col][j], inv_pivot);
            scaled.push(v);
            j += 1;
        }
        aug.set(col, scaled);
        proof {
            lemma_scale(q, av1, m, n, col as int, inv_pivot, pv);
            q = scale_col(q, col as int, pv);
            assert(scaled@ =~= scaled_row(av1[col as int], inv_pivot));
            assert(rows_view(aug@) =~= av1.update(col as int, scaled_row(av1[col as int], inv_pivot)));
            let av2 = rows_view(aug@);
            assert forall|r: int, c: int| 0 <= r < n && 0 <= c < col implies #[trigger] av2[r][c] == ident(r, c) by {
                assert(av1[r][c] == ident(r, c));
                if r == col as int {
                    lemma_mul_zero(inv_pivot);
                }
            }
        }
        let ghost av2 = rows_view(aug@);
        assert(av2[col as int][col as int] == 1);
        // Clear the pivot column in every other row.
        let mut row: usize = 0;
        while row < size
            invariant
                row <= size,
                col < size,
                n == size,
                n2 == 2 * size,
                m == rows_view(matrix@),
                aug@.len() == size,
                elim_inv(q, rows_view(aug@), m, n),
                reduced(rows_view(aug@), n, col as int),
                rows_view(aug@)[col as int] == av2[col as int],
                av2[col as int][col as int] == 1,
                forall|r: int| 0 <= r < row && r != col ==> #[trigger] rows_view(aug@)[r][col as int] == 0,
            decreases size - row,
        {
            let ghost av3 = rows_view(aug@);
            assert(aug@[row as int]@.len() == n2 && aug@[col as int]@.len() == n2) by {
                assert(av3[row as int].len() == n2);
                assert(av3[col as int].len() == n2);
            }
            if row != col && aug[row][col] != 0 {
                let scale = aug[row][col];
                let mut reduced_row: Vec<u8> = Vec::new();
                let mut j: usize = 0;
                while j < n2
                    invariant
                        j <= n2,
                        row < size,
                        col < size,
                        aug@.len() == size,
                        av3 == rows_view(aug@),
                        av3[row as int].len() == n2,
                        av3[col as int].len() == n2,
                        reduced_row@.len() == j,
                        forall|jj: int| 0 <= jj < j ==> #[trigger] reduced_row@[jj]
                            == (av3[row as int][jj] ^ gf_mul_spec(scale, av3[col as int][jj])) as u8,
                    decreases n2 - j,
                {
                    let v = aug[row][j] ^ gf_mul(scale, aug[col][j]);
                    reduced_row.push(v);
                    j += 1;
                }
                aug.set(row, reduced_row);
                proof {
                    lemma_elim(q, av3, m, n, row as int, col as int, scale);
                    q = elim_col(q, row as int, col as int, scale);
                    assert(reduced_row@ =~= elim_row(av3[row as int], av3[col as int], scale));
                    assert(rows_view(aug@) =~= av3.update(row as int, elim_row(av3[row as int], av3[col as int], scale)));
                    let av4 = rows_view(aug@);
                    assert forall|r: int, c: int| 0 <= r < n && 0 <= c < col implies #[trigger] av4[r][c] == ident(r, c) by {
                        assert(av3[r][c] == ident(r, c));
                        if r == row as int {
                            assert(av3[col as int][c] == ident(col as int, c));
                            lemma_mul_zero(scale);
                            let x = av3[r][c];
                            assert((x ^ 0u8) as u8 == x) by (bit_vector);
                        }
                    }
                    lemma_mul_one(scale);
                    assert((scale ^ scale) as u8 == 0u8) by (bit_vector);
                    assert forall|r: int| 0 <= r < row + 1 && r != col implies #[trigger] av4[r][col as int] == 0 by {
                        if r != row as int {
                            assert(av3[r][col as int] == 0);
                        }
                    }
                }
            }
            row += 1;
        }
        proof {
            let av5 = rows_view(aug@);
            assert forall|r: int, c: int| 0 <= r < n && 0 <= c < col + 1 implies #[trigger] av5[r][c] == ident(r, c) by {
                if c == col as int {
                    if r != col as int {
                        assert(av5[r][col as int] == 0);
                    }
                }
            }
        }
        col += 1;
    }
    let ghost avf = rows_view(aug@);
    proof {
        lemma_finish(q, avf, m, n);
    }
    let mut result: Vec<Vec<u8>> = Vec::new();
    let mut i: usize = 0;
    while i < size
        invariant
            i <= size,
            n == size,
            2 * size <= usize::MAX,
            aug@.len() == size,
            avf == rows_view(aug@),
            shapes_ok(q, avf, m, n),
            result@.len() == i,
            forall|r: int| 0 <= r < i ==> #[trigger] result@[r]@ == right_half(avf, n)[r],
        decreases size - i,
    {
        assert(avf[i as int].len() == 2 * size);
        let mut out_row: Vec<u8> = Vec::new();
        let mut j: usize = 0;
        while j < size
            invariant
                j <= size,
                i < size,
                n == size,
                aug@.len() == size,
                avf == rows_view(aug@),
                avf[i as int].len() == 2 * size,
                2 * size <= usize::MAX,
                out_row@.len() == j,
                forall|jj: int| 0 <= jj < j ==> #[trigger] out_row@[jj] == avf[i as int][size + jj],
            decreases size - j,
        {
            out_row.push(aug[i][size + j]);
            j += 1;
        }
        assert(out_row@ =~= right_half(avf, n)[i as int]);
        result.push(out_row);
        i += 1;
    }
    assert(rows_view(result@) =~= right_half(avf, n));
    Some(result)
}


/// Errors of the Reed-Solomon codec.
#[derive(Debug, Clone, Copy, PartialEq, Eq, Structural)]
pub enum RsError {
    InsufficientShards { required: usize, available: usize },
    ZeroDataShards,
    TooManyParityShards,
    InconsistentLength { expected: usize, got: usize },
    InvalidIndex(usize),
}

/// Entry `(i, j)` of the Vandermonde matrix on the nodes 3^0, 3^1, ...
pub open spec fn vand(i: int, j: int) -> u8 {
    pow_spec(pow_spec(3, i as nat), j as nat)
}

/// The top `k` by `k` block of the Vandermonde matrix.
pub open spec fn top_vand(k: nat) -> Seq<Seq<u8>> {
    Seq::new(k, |i: int| Seq::new(k, |j: int| vand(i, j)))
}

/// The two-sided inverse of an invertible `n` by `n` matrix.
pub open spec fn inverse(m: Seq<Seq<u8>>, n: nat) -> Seq<Seq<u8>> {
    choose|inv: Seq<Seq<u8>>| is_inverse_of(inv, m, n)
}

/// Row `i` of the parity block: row `k + i` of the Vandermonde matrix times the
/// inverse of its top block.
pub open spec fn parity_matrix(k: nat, p: nat) -> Seq<Seq<u8>> {
    Seq::new(p, |i: int| Seq::new(k, |j: int|
        xsum(|c: int| gf_mul_spec(vand(k + i, c), inverse(top_vand(k), k)[c][j]), k)))
}

/// The systematic encoding matrix: the identity on top of the parity block.
pub open spec fn encoding_matrix(k: nat, p: nat) -> Seq<Seq<u8>> {
    Seq::new(k + p, |r: int| if r < k { Seq::new(k, |j: int| ident(r, j)) } else { parity_matrix(k, p)[r - k] })
}

/// Shard `r` of the encoding of `data` (`k` rows of `len` bytes).
pub open spec fn shard_of(k: nat, p: nat, data: Seq<Seq<u8>>, len: nat, r: int) -> Seq<u8> {
    Seq::new(len, |b: int| xsum(|d: int| gf_mul_spec(encoding_matrix(k, p)[r][d], data[d][b]), k))
}

/// The parity shards of the encoding of `data`.
pub open spec fn parity_of(k: nat, p: nat, data: Seq<Seq<u8>>, len: nat) -> Seq<Seq<u8>> {
    Seq::new(p, |i: int| shard_of(k, p, data, len, k + i))
}

/// Every row of `data` has `len` bytes.
pub open spec fn rows_of_len(data: Seq<Seq<u8>>, len: nat) -> bool {
    forall|i: int| 0 <= i < data.len() ==> #[trigger] data[i].len() == len
}

/// `s` padded with zero bytes up to `len` bytes; unchanged when it is as long already.
pub open spec fn pad_zeros(s: Seq<u8>, len: nat) -> Seq<u8> {
    if s.len() >= len {
        s
    } else {
        s + Seq::new((len - s.len()) as nat, |_t: int| 0u8)
    }
}

/// The first `k` rows of `rows`, each padded with zeros to the length of the first row.
pub open spec fn padded_prefix(rows: Seq<Seq<u8>>, k: nat) -> Seq<Seq<u8>> {
    Seq::new(k, |i: int| pad_zeros(rows[i], rows[0].len()))
}

/// The `n` by `n` matrix `m` has a two-sided inverse.
pub open spec fn invertible(m: Seq<Seq<u8>>, n: nat) -> bool {
    exists|inv: Seq<Seq<u8>>| is_inverse_of(inv, m, n)
}

/// The shard slots as optional byte sequences.
pub open spec fn opt_view(s: Seq<Option<Vec<u8>>>) -> Seq<Option<Seq<u8>>> {
    Seq::new(s.len(), |i: int| match s[i] {
        Some(v) => Some(v@),
        None => None,
    })
}

/// The indices below `n` of the shards that are present, in increasing order.
pub open spec fn present_upto(s: Seq<Option<Seq<u8>>>, n: int) -> Seq<int>
    decreases n,
{
    if n <= 0 {
        Seq::empty()
    } else if s[n - 1] is Some {
        present_upto(s, n - 1).push(n - 1)
    } else {
        present_upto(s, n - 1)
    }
}

/// The indices of the shards that are present, in increasing order.
pub open spec fn present(s: Seq<Option<Seq<u8>>>) -> Seq<int> {
    present_upto(s, s.len() as int)
}

/// The shards that reconstruction reads: the first `k` present ones.
pub open spec fn used(s: Seq<Option<Seq<u8>>>, k: nat) -> Seq<int> {
    present(s).take(k as int)
}

/// The rows of the encoding matrix that belong to the shards read.
pub open spec fn sub_matrix(k: nat, p: nat, s: Seq<Option<Seq<u8>>>) -> Seq<Seq<u8>> {
    Seq::new(k, |r: int| encoding_matrix(k, p)[used(s, k)[r]])
}

/// The length of the first shard read.
pub open spec fn block_len(s: Seq<Option<Seq<u8>>>) -> nat {
    s[present(s)[0]]->0.len()
}

/// What reconstruction needs of the shards it reads: that they have rows in
/// the encoding matrix and are at least as long as the first one.
pub open spec fn reconstructible_input(k: nat, p: nat, s: Seq<Option<Seq<u8>>>) -> bool {
    present(s).len() >= k ==> forall|r: int| 0 <= r < k ==> {
        &&& #[trigger] used(s, k)[r] < k + p
        &&& s[used(s, k)[r]]->0.len() >= block_len(s)
    }
}

/// The outcome of reconstructing the `k` data shards from the shard slots `s`.
pub open spec fn recon_spec(k: nat, p: nat, s: Seq<Option<Seq<u8>>>) -> Result<Seq<Seq<u8>>, RsError> {
    let cnt = present(s).len();
    if cnt < k || !invertible(sub_matrix(k, p, s), k) {
        Err(RsError::InsufficientShards { required: k as usize, available: cnt as usize })
    } else {
        let u = used(s, k);
        let inv = inverse(sub_matrix(k, p, s), k);
        Ok(Seq::new(k, |o: int| Seq::new(block_len(s), |b: int|
            xsum(|r: int| gf_mul_spec(inv[o][r], s[u[r]]->0[b]), k))))
    }
}

/// Every present shard is the corresponding shard of the encoding of `data`.
pub open spec fn shards_match(k: nat, p: nat, s: Seq<Option<Seq<u8>>>, data: Seq<Seq<u8>>, len: nat) -> bool {
    &&& data.len() == k
    &&& rows_of_len(data, len)
    &&& forall|i: int| 0 <= i < s.len() && #[trigger] s[i] is Some ==> i < k + p && s[i]->0 == shard_of(k, p, data, len, i)
}

pub proof fn lemma_present_upto(s: Seq<Option<Seq<u8>>>, n: int)
    requires 0 <= n <= s.len(),
    ensures
        present_upto(s, n).len() <= n,
        forall|t: int| 0 <= t < present_upto(s, n).len() ==> {
            &&& 0 <= #[trigger] present_upto(s, n)[t] < n
            &&& s[present_upto(s, n)[t]] is Some
        },
        forall|t1: int, t2: int| 0 <= t1 < t2 < present_upto(s, n).len()
            ==> #[trigger] present_upto(s, n)[t1] < #[trigger] present_upto(s, n)[t2],
    decreases n,
{
    if n > 0 {
        lemma_present_upto(s, n - 1);
    }
}

/// The data shards of the encoding are the data itself.
pub proof fn lemma_systematic(k: nat, p: nat, data: Seq<Seq<u8>>, len: nat, r: int)
    requires
        0 <= r < k,
        data.len() == k,
        rows_of_len(data, len),
    ensures
        shard_of(k, p, data, len, r) == data[r],
{
    let e = encoding_matrix(k, p)[r];
    assert forall|b: int| 0 <= b < len implies #[trigger] shard_of(k, p, data, len, r)[b] == data[r][b] by {
        let f = |d: int| gf_mul_spec(e[d], data[d][b]);
        assert forall|d: int| 0 <= d < k && d != r implies #[trigger] f(d) == 0 by {
            lemma_mul_zero(data[d][b]);
            lemma_mul_comm(0, data[d][b]);
        }
        lemma_mul_one(data[r][b]);
        lemma_xsum_single(f, k, r);
    }
    assert(shard_of(k, p, data, len, r) =~= data[r]);
}

/// The Vandermonde rows at distinct indices below 255 form a non-singular
/// matrix.
pub proof fn lemma_vand_rows_nonsingular(rows: Seq<int>, k: nat)
    requires
        rows.len() == k,
        forall|i: int| 0 <= i < k ==> 0 <= #[trigger] rows[i] < 255,
        forall|i: int, j: int| 0 <= i < j < k ==> #[trigger] rows[i] != #[trigger] rows[j],
    ensures
        !singular(Seq::new(k, |r: int| Seq::new(k, |c: int| vand(rows[r], c))), k),
{
    let v = Seq::new(k, |r: int| Seq::new(k, |c: int| vand(rows[r], c)));
    let nodes = Seq::new(k, |i: int| pow_spec(3, rows[i] as nat));
    assert forall|i: int, j: int| 0 <= i < nodes.len() && 0 <= j < nodes.len() && i != j implies nodes[i] != nodes[j] by {
        if i < j {
            assert(rows[i] != rows[j]);
            if rows[i] < rows[j] {
                lemma_pow3_distinct(rows[i] as nat, rows[j] as nat);
            } else {
                lemma_pow3_distinct(rows[j] as nat, rows[i] as nat);
            }
        } else {
            assert(rows[j] != rows[i]);
            if rows[i] < rows[j] {
                lemma_pow3_distinct(rows[i] as nat, rows[j] as nat);
            } else {
                lemma_pow3_distinct(rows[j] as nat, rows[i] as nat);
            }
        }
    }
    assert(distinct_nodes(nodes));
    lemma_vandermonde_nonsingular(v, nodes, k);
}

/// Any `k` shards of a codeword restore the data: when every present shard is
/// the corresponding shard of the encoding of `data` and at least `k` are
/// present (at most `p` lost), reconstruction succeeds and yields `data`.
pub proof fn lemma_any_k_shards_reconstruct(k: nat, p: nat, s: Seq<Option<Seq<u8>>>, data: Seq<Seq<u8>>, len: nat)
    requires
        k + p <= 255,
        shards_match(k, p, s, data, len),
        present(s).len() >= k,
    ensures
        recon_spec(k, p, s) == Ok::<Seq<Seq<u8>>, RsError>(data),
{
    let sm = sub_matrix(k, p, s);
    let u = used(s, k);
    let pres = present(s);
    lemma_present_upto(s, s.len() as int);
    if k == 0 {
        assert(is_inverse_of(Seq::<Seq<u8>>::empty(), sm, 0));
    } else {
        let t = top_vand(k);
        let id_rows = Seq::new(k, |i: int| i);
        lemma_vand_rows_nonsingular(id_rows, k);
        assert(Seq::new(k, |r: int| Seq::new(k, |c: int| vand(id_rows[r], c))) =~= t);
        lemma_nonsingular_invertible(t, k);
        let ti = inverse(t, k);
        assert(is_inverse_of(ti, t, k));
        assert forall|r: int| 0 <= r < k implies 0 <= #[trigger] u[r] < 255 by {
            assert(u[r] == pres[r]);
            assert(s[pres[r]] is Some);
        }
        assert forall|i: int, j: int| 0 <= i < j < k implies #[trigger] u[i] != #[trigger] u[j] by {
            assert(u[i] == pres[i] && u[j] == pres[j]);
        }
        let vs = Seq::new(k, |r: int| Seq::new(k, |c: int| vand(u[r], c)));
        lemma_vand_rows_nonsingular(u, k);
        // The rows read are the Vandermonde rows times the inverse of the top block.
        assert forall|r: int, j: int| 0 <= r < k && 0 <= j < k implies #[trigger] sm[r][j] == mat_mul_at(vs, ti, r, j, k) by {
            assert(u[r] == pres[r]);
            assert(s[pres[r]] is Some);
            let f = |c: int| gf_mul_spec(vs[r][c], ti[c][j]);
            if u[r] < k {
                let g = |c: int| gf_mul_spec(t[u[r]][c], ti[c][j]);
                assert forall|c: int| 0 <= c < k implies #[trigger] f(c) == g(c) by {}
                lemma_xsum_ext(f, g, k);
                assert(mat_mul_at(t, ti, u[r], j, k) == ident(u[r], j));
            } else {
                let g = |c: int| gf_mul_spec(vand(k + (u[r] - k), c), inverse(top_vand(k), k)[c][j]);
                assert forall|c: int| 0 <= c < k implies #[trigger] f(c) == g(c) by {}
                lemma_xsum_ext(f, g, k);
            }
        }
        // So it maps no non-zero vector to zero.
        if singular(sm, k) {
            let x = choose|x: Seq<u8>| nonzero_vec(x, k) && in_kernel(sm, x, k);
            let y = Seq::new(k, |i: int| mat_vec_at(ti, x, i, k));
            assert forall|r: int| 0 <= r < k implies #[trigger] mat_vec_at(vs, y, r, k) == 0 by {
                lemma_mat_vec_assoc(vs, ti, x, r, k);
                let a = |c: int| gf_mul_spec(sm[r][c], x[c]);
                let b = |c: int| gf_mul_spec(mat_mul_at(vs, ti, r, c, k), x[c]);
                assert forall|c: int| 0 <= c < k implies #[trigger] a(c) == b(c) by {}
                lemma_xsum_ext(a, b, k);
                assert(mat_vec_at(sm, x, r, k) == 0);
                let d = |c: int| gf_mul_spec(vs[r][c], y[c]);
                let e = |c: int| gf_mul_spec(vs[r][c], mat_vec_at(ti, x, c, k));
                assert forall|c: int| 0 <= c < k implies #[trigger] d(c) == e(c) by {}
                lemma_xsum_ext(d, e, k);
            }
            if forall|c: int| 0 <= c < k ==> #[trigger] y[c] == 0 {
                let c0 = choose|c: int| 0 <= c < k && x[c] != 0;
                lemma_mat_vec_assoc(t, ti, x, c0, k);
                let g = |c: int| gf_mul_spec(mat_mul_at(t, ti, c0, c, k), x[c]);
                assert forall|c: int| 0 <= c < k && c != c0 implies #[trigger] g(c) == 0 by {
                    assert(mat_mul_at(t, ti, c0, c, k) == ident(c0, c));
                    lemma_mul_zero(x[c]);
                }
                assert(mat_mul_at(t, ti, c0, c0, k) == ident(c0, c0));
                lemma_mul_one(x[c0]);
                lemma_xsum_single(g, k, c0);
                let h = |c: int| gf_mul_spec(t[c0][c], mat_vec_at(ti, x, c, k));
                assert forall|c: int| 0 <= c < k implies #[trigger] h(c) == 0 by {
                    assert(y[c] == 0);
                    lemma_mul_zero(t[c0][c]);
                }
                lemma_xsum_zero(h, k);
                assert(false);
            }
            let cy = choose|c: int| 0 <= c < k && y[c] != 0;
            assert(nonzero_vec(y, k));
            assert(in_kernel(vs, y, k));
            assert(false);
        }
        lemma_nonsingular_invertible(sm, k);
    }
    assert(invertible(sm, k));
    lemma_reconstruct_recovers(k, p, s, data, len);
}

/// Reconstruction recovers the data: when every present shard is the
/// corresponding shard of the encoding of `data`, a successful
/// reconstruction yields exactly `data`.
pub proof fn lemma_reconstruct_recovers(k: nat, p: nat, s: Seq<Option<Seq<u8>>>, data: Seq<Seq<u8>>, len: nat)
    requires
        shards_match(k, p, s, data, len),
        recon_spec(k, p, s) is Ok,
    ensures
        recon_spec(k, p, s)->Ok_0 == data,
{
    let res = recon_spec(k, p, s)->Ok_0;
    let sm = sub_matrix(k, p, s);
    let inv = inverse(sm, k);
    let u = used(s, k);
    let pres = present(s);
    lemma_present_upto(s, s.len() as int);
    assert(is_inverse_of(inv, sm, k));
    if k == 0 {
        assert(res =~= data);
        return;
    }
    assert(s[pres[0]] is Some);
    assert(block_len(s) == len);
    assert forall|o: int| 0 <= o < k implies #[trigger] res[o] =~= data[o] by {
        assert forall|b: int| 0 <= b < len implies #[trigger] res[o][b] == data[o][b] by {
            let col = Seq::new(k, |d: int| data[d][b]);
            lemma_mat_vec_assoc(inv, sm, col, o, k);
            let lhs = |r: int| gf_mul_spec(inv[o][r], s[u[r]]->0[b]);
            let rhs = |r: int| gf_mul_spec(inv[o][r], mat_vec_at(sm, col, r, k));
            assert forall|r: int| 0 <= r < k implies #[trigger] lhs(r) == rhs(r) by {
                assert(u[r] == pres[r]);
                assert(s[u[r]] is Some);
                let sh = shard_of(k, p, data, len, u[r]);
                assert(s[u[r]]->0 == sh);
                let g1 = |d: int| gf_mul_spec(encoding_matrix(k, p)[u[r]][d], data[d][b]);
                let g2 = |d: int| gf_mul_spec(sm[r][d], col[d]);
                assert forall|d: int| 0 <= d < k implies #[trigger] g1(d) == g2(d) by {}
                lemma_xsum_ext(g1, g2, k);
            }
            lemma_xsum_ext(lhs, rhs, k);
            let h = |c: int| gf_mul_spec(mat_mul_at(inv, sm, o, c, k), col[c]);
            assert forall|c: int| 0 <= c < k && c != o implies #[trigger] h(c) == 0 by {
                assert(mat_mul_at(inv, sm, o, c, k) == ident(o, c));
                lemma_mul_zero(col[c]);
                lemma_mul_comm(0, col[c]);
            }
            assert(mat_mul_at(inv, sm, o, o, k) == ident(o, o));
            lemma_mul_one(col[o]);
            lemma_xsum_single(h, k, o);
        }
    }
    assert(res =~= data);
}

/// The one-line summary of a codec with `d` data and `p` parity shards,
/// around the percentage of shards it may lose, written as `percent`.
pub open spec fn summary(d: nat, p: nat, percent: Seq<char>) -> Seq<char> {
    "Reed-Solomon("@ + dec(d) + "/"@ + dec(d + p) + ", 容错"@ + dec(p) + "="@ + percent + "%)"@
}

/// A Reed-Solomon codec with `data_shards` data shards and `parity_shards`
/// parity shards.
#[derive(Debug, Clone, Copy)]
pub struct ReedSolomon {
    data_shards: usize,
    parity_shards: usize,
    total_shards: usize,
}

impl View for ReedSolomon {
    type V = (nat, nat);

    /// The numbers of data and parity shards.
    closed spec fn view(&self) -> (nat, nat) {
        (self.data_shards as nat, self.parity_shards as nat)
    }
}

impl ReedSolomon {
    #[verifier::type_invariant]
    spec fn wf(self) -> bool {
        &&& self.data_shards >= 1
        &&& self.parity_shards >= 1
        &&& self.total_shards == self.data_shards + self.parity_shards
        &&& self.total_shards <= 255
    }

    /// Creates a codec; at least one data shard and one parity shard, and
    /// at most 255 shards in all.
    pub fn new(data_shards: usize, parity_shards: usize) -> (res: Result<Self, RsError>)
        ensures
            data_shards == 0 ==> res == Err::<Self, RsError>(RsError::ZeroDataShards),
            data_shards != 0 && (parity_shards == 0 || data_shards + parity_shards > 255)
                ==> res == Err::<Self, RsError>(RsError::TooManyParityShards),
            data_shards != 0 && parity_shards != 0 && data_shards + parity_shards <= 255
                ==> (res matches Ok(rs) && rs@ == (data_shards as nat, parity_shards as nat)),
    {
        if data_shards == 0 {
            return Err(RsError::ZeroDataShards);
        }
        if parity_shards == 0 {
            return Err(RsError::TooManyParityShards);
        }
        if data_shards > 255 || parity_shards > 255 - data_shards {
            return Err(RsError::TooManyParityShards);
        }
        Ok(Self { data_shards, parity_shards, total_shards: data_shards + parity_shards })
    }

    pub fn data_shards(&self) -> (r: usize)
        ensures r == self@.0,
    {
        self.data_shards
    }

    pub fn parity_shards(&self) -> (r: usize)
        ensures r == self@.1,
    {
        self.parity_shards
    }

    pub fn total_shards(&self) -> (r: usize)
        ensures r == self@.0 + self@.1,
    {
        proof { use_type_invariant(self); }
        self.total_shards
    }

    /// The number of shards that may be lost: the parity count.
    pub fn erasure_tolerance(&self) -> (r: usize)
        ensures r == self@.1,
    {
        self.parity_shards
    }

    /// The `total` by `total` Vandermonde matrix.
    fn vandermonde_matrix(&self) -> (vm: Vec<Vec<u8>>)
        ensures
            has_shape(rows_view(vm@), (self@.0 + self@.1) as nat, (self@.0 + self@.1) as nat),
            forall|i: int, j: int| 0 <= i < self@.0 + self@.1 && 0 <= j < self@.0 + self@.1
                ==> #[trigger] rows_view(vm@)[i][j] == vand(i, j),
    {
        proof { use_type_invariant(self); }
        let total = self.total_shards;
        let mut matrix: Vec<Vec<u8>> = Vec::new();
        let mut i: usize = 0;
        while i < total
            invariant
                total == self@.0 + self@.1,
                total <= 255,
                i <= total,
                matrix@.len() == i,
                forall|r: int| 0 <= r < i ==> #[trigger] matrix@[r]@.len() == total,
                forall|r: int, j: int| 0 <= r < i && 0 <= j < total ==> #[trigger] matrix@[r]@[j] == vand(r, j),
            decreases total - i,
        {
            let x = gf_exp(i);
            assert(i % 255 == i);
            let mut row: Vec<u8> = Vec::new();
            let mut j: usize = 0;
            while j < total
                invariant
                    total <= 255,
                    i < total,
                    j <= total,
                    x == pow_spec(3, i as nat),
                    row@.len() == j,
                    forall|jj: int| 0 <= jj < j ==> #[trigger] row@[jj] == vand(i as int, jj),
                decreases total - j,
            {
                row.push(gf_pow(x, j as u32));
                j += 1;
            }
            matrix.push(row);
            i += 1;
        }
        matrix
    }

    /// The top block of the Vandermonde matrix is invertible.
    proof fn lemma_top_invertible(k: nat)
        requires 1 <= k <= 254,
        ensures !singular(top_vand(k), k),
    {
        let nodes = Seq::new(k, |i: int| pow_spec(3, i as nat));
        assert forall|i: int, j: int| 0 <= i < nodes.len() && 0 <= j < nodes.len() && i != j implies nodes[i] != nodes[j] by {
            if i < j {
                lemma_pow3_distinct(i as nat, j as nat);
            } else {
                lemma_pow3_distinct(j as nat, i as nat);
            }
        }
        assert(distinct_nodes(nodes));
        lemma_vandermonde_nonsingular(top_vand(k), nodes, k);
    }

    /// The parity block of the systematic encoding matrix.
    fn encode_matrix(&self) -> (pm: Vec<Vec<u8>>)
        ensures
            rows_view(pm@) == parity_matrix(self@.0, self@.1),
    {
        proof { use_type_invariant(self); }
        let k = self.data_shards;
        let p = self.parity_shards;
        let vm = self.vandermonde_matrix();
        let mut top: Vec<Vec<u8>> = Vec::new();
        let mut i: usize = 0;
        while i < k
            invariant
                k == self@.0,
                k + p <= 255,
                k + p == self@.0 + self@.1,
                i <= k,
                has_shape(rows_view(vm@), (k + p) as nat, (k + p) as nat),
                forall|a: int, b: int| 0 <= a < k + p && 0 <= b < k + p ==> #[trigger] rows_view(vm@)[a][b] == vand(a, b),
                top@.len() == i,
                forall|r: int| 0 <= r < i ==> #[trigger] top@[r]@ == top_vand(k as nat)[r],
            decreases k - i,
        {
            let mut row: Vec<u8> = Vec::new();
            let mut j: usize = 0;
            assert(rows_view(vm@)[i as int].len() == k + p);
            while j < k
                invariant
                    k + p <= 255,
                    i < k,
                    j <= k,
                    has_shape(rows_view(vm@), (k + p) as nat, (k + p) as nat),
                    forall|a: int, b: int| 0 <= a < k + p && 0 <= b < k + p ==> #[trigger] rows_view(vm@)[a][b] == vand(a, b),
                    row@.len() == j,
                    forall|jj: int| 0 <= jj < j ==> #[trigger] row@[jj] == vand(i as int, jj),
                decreases k - j,
            {
                assert(rows_view(vm@)[i as int][j as int] == vand(i as int, j as int));
                row.push(vm[i][j]);
                j += 1;
            }
            assert(row@ =~= top_vand(k as nat)[i as int]);
            top.push(row);
            i += 1;
        }
        let ghost tv = top_vand(k as nat);
        assert(rows_view(top@) =~= tv);
        proof { Self::lemma_top_invertible(k as nat); }
        let top_inv = match invert_matrix(&top, k) {
            Some(inv) => inv,
            None => {
                assert(false);
                Vec::new()
            }
        };
        let ghost ti = inverse(tv, k as nat);
        proof {
            assert(is_inverse_of(rows_view(top_inv@), tv, k as nat));
            lemma_inverse_unique(rows_view(top_inv@), ti, tv, k as nat);
        }
        let ghost tiv = rows_view(top_inv@);
        let mut result: Vec<Vec<u8>> = Vec::new();
        let mut i: usize = 0;
        while i < p
            invariant
                k == self@.0,
                p == self@.1,
                k + p <= 255,
                k >= 1,
                i <= p,
                has_shape(rows_view(vm@), (k + p) as nat, (k + p) as nat),
                forall|a: int, b: int| 0 <= a < k + p && 0 <= b < k + p ==> #[trigger] rows_view(vm@)[a][b] == vand(a, b),
                tiv == rows_view(top_inv@),
                has_shape(tiv, k as nat, k as nat),
                forall|a: int, b: int| 0 <= a < k && 0 <= b < k ==> #[trigger] tiv[a][b] == ti[a][b],
                ti == inverse(top_vand(k as nat), k as nat),
                result@.len() == i,
                forall|r: int| 0 <= r < i ==> #[trigger] result@[r]@ == parity_matrix(k as nat, p as nat)[r],
            decreases p - i,
        {
            let mut row: Vec<u8> = Vec::new();
            let mut j: usize = 0;
            while j < k
                invariant
                    k + p <= 255,
                    k >= 1,
                    i < p,
                    j <= k,
                    has_shape(rows_view(vm@), (k + p) as nat, (k + p) as nat),
                    forall|a: int, b: int| 0 <= a < k + p && 0 <= b < k + p ==> #[trigger] rows_view(vm@)[a][b] == vand(a, b),
                    tiv == rows_view(top_inv@),
                    has_shape(tiv, k as nat, k as nat),
                    forall|a: int, b: int| 0 <= a < k && 0 <= b < k ==> #[trigger] tiv[a][b] == ti[a][b],
                    ti == inverse(top_vand(k as nat), k as nat),
                    row@.len() == j,
                    forall|jj: int| 0 <= jj < j ==> #[trigger] row@[jj] == parity_matrix(k as nat, p as nat)[i as int][jj],
                decreases k - j,
            {
                let ghost f = |c: int| gf_mul_spec(vand(k + i, c), ti[c][j as int]);
                let mut sum: u8 = 0;
                let mut c: usize = 0;
                while c < k
                    invariant
                        k + p <= 255,
                        i < p,
                        j < k,
                        c <= k,
                        has_shape(rows_view(vm@), (k + p) as nat, (k + p) as nat),
                        forall|a: int, b: int| 0 <= a < k + p && 0 <= b < k + p ==> #[trigger] rows_view(vm@)[a][b] == vand(a, b),
                        tiv == rows_view(top_inv@),
                        has_shape(tiv, k as nat, k as nat),
                        forall|a: int, b: int| 0 <= a < k && 0 <= b < k ==> #[trigger] tiv[a][b] == ti[a][b],
                        f == (|c: int| gf_mul_spec(vand(k + i, c), ti[c][j as int])),
                        sum == xsum(f, c as nat),
                    decreases k - c,
                {
                    assert(rows_view(vm@)[k + i][c as int] == vand(k + i, c as int));
                    assert(tiv[c as int][j as int] == ti[c as int][j as int]);
                    assert(tiv[c as int].len() == k);
                    sum = sum ^ gf_mul(vm[k + i][c], top_inv[c][j]);
                    c += 1;
                }
                row.push(sum);
                j += 1;
            }
            assert(row@ =~= parity_matrix(k as nat, p as nat)[i as int]);
            result.push(row);
            i += 1;
        }
        assert(rows_view(result@) =~= parity_matrix(k as nat, p as nat));
        result
    }
    /// The systematic encoding matrix: the identity above the parity block.
    fn full_encoding_matrix(&self) -> (fm: Vec<Vec<u8>>)
        ensures
            rows_view(fm@) == encoding_matrix(self@.0, self@.1),
            has_shape(rows_view(fm@), (self@.0 + self@.1) as nat, self@.0),
    {
        proof { use_type_invariant(self); }
        let k = self.data_shards;
        let p = self.parity_shards;
        let pm = self.encode_matrix();
        let ghost pmv = rows_view(pm@);
        let mut full: Vec<Vec<u8>> = Vec::new();
        let mut i: usize = 0;
        while i < k + p
            invariant
                k == self@.0,
                p == self@.1,
                k + p <= 255,
                i <= k + p,
                pmv == rows_view(pm@),
                pmv == parity_matrix(k as nat, p as nat),
                full@.len() == i,
                forall|r: int| 0 <= r < i ==> #[trigger] full@[r]@ == encoding_matrix(k as nat, p as nat)[r],
            decreases k + p - i,
        {
            let mut row: Vec<u8> = Vec::new();
            let mut j: usize = 0;
            while j < k
                invariant
                    k + p <= 255,
                    i < k + p,
                    j <= k,
                    pmv == rows_view(pm@),
                    pmv == parity_matrix(k as nat, p as nat),
                    row@.len() == j,
                    forall|jj: int| 0 <= jj < j ==> #[trigger] row@[jj] == encoding_matrix(k as nat, p as nat)[i as int][jj],
                decreases k - j,
            {
                if i < k {
                    if i == j {
                        row.push(1);
                    } else {
                        row.push(0);
                    }
                } else {
                    assert(pmv.len() == p);
                    assert(pmv[i - k] == pm@[i - k]@);
                    assert(pmv[i - k].len() == k);
                    row.push(pm[i - k][j]);
                }
                j += 1;
            }
            assert(row@ =~= encoding_matrix(k as nat, p as nat)[i as int]);
            full.push(row);
            i += 1;
        }
        assert(rows_view(full@) =~= encoding_matrix(k as nat, p as nat));
        full
    }

    /// Computes the parity shards of `data` (one shard per data shard, all of
    /// the same length).
    pub fn encode(&self, data: &[Vec<u8>]) -> (res: Result<Vec<Vec<u8>>, RsError>)
        ensures
            data@.len() != self@.0 ==> res == Err::<Vec<Vec<u8>>, RsError>(
                RsError::InsufficientShards { required: self@.0 as usize, available: data@.len() as usize }),
            data@.len() == self@.0 ==> match res {
                Err(e) => exists|i: int| 0 <= i < self@.0 && {
                    &&& #[trigger] data@[i]@.len() != data@[0]@.len()
                    &&& forall|j: int| 0 <= j < i ==> #[trigger] data@[j]@.len() == data@[0]@.len()
                    &&& e == RsError::InconsistentLength { expected: data@[0]@.len() as usize, got: data@[i]@.len() as usize }
                },
                Ok(parity) => {
                    &&& rows_of_len(rows_view(data@), data@[0]@.len())
                    &&& rows_view(parity@) == parity_of(self@.0, self@.1, rows_view(data@), data@[0]@.len())
                },
            },
            data@.len() == self@.0 && rows_of_len(rows_view(data@), data@[0]@.len()) ==> res is Ok,
    {
        proof { use_type_invariant(self); }
        let k = self.data_shards;
        let p = self.parity_shards;
        if data.len() != k {
            return Err(RsError::InsufficientShards { required: k, available: data.len() });
        }
        let ghost dv = rows_view(data@);
        let block_len = data[0].len();
        let mut i: usize = 0;
        while i < k
            invariant
                k == self@.0,
                data@.len() == k,
                i <= k,
                block_len == data@[0]@.len(),
                forall|j: int| 0 <= j < i ==> #[trigger] data@[j]@.len() == block_len,
            decreases k - i,
        {
            if data[i].len() != block_len {
                assert(rows_view(data@)[i as int] == data@[i as int]@);
                return Err(RsError::InconsistentLength { expected: block_len, got: data[i].len() });
            }
            i += 1;
        }
        assert(rows_of_len(dv, block_len as nat)) by {
            assert forall|j: int| 0 <= j < dv.len() implies #[trigger] dv[j].len() == block_len by {
                assert(data@[j]@.len() == block_len);
            }
        }
        let matrix = self.full_encoding_matrix();
        let ghost fm = encoding_matrix(k as nat, p as nat);
        let mut parity: Vec<Vec<u8>> = Vec::new();
        let mut pi: usize = 0;
        while pi < p
            invariant
                k == self@.0,
                p == self@.1,
                k + p <= 255,
                data@.len() == k,
                dv == rows_view(data@),
                rows_of_len(dv, block_len as nat),
                rows_view(matrix@) == fm,
                fm == encoding_matrix(k as nat, p as nat),
                has_shape(fm, (k + p) as nat, k as nat),
                pi <= p,
                parity@.len() == pi,
                forall|r: int| 0 <= r < pi ==> #[trigger] parity@[r]@ == shard_of(k as nat, p as nat, dv, block_len as nat, k + r),
            decreases p - pi,
        {
            let mut row: Vec<u8> = Vec::new();
            let mut b: usize = 0;
            while b < block_len
                invariant
                    k + p <= 255,
                    pi < p,
                    data@.len() == k,
                    dv == rows_view(data@),
                    rows_of_len(dv, block_len as nat),
                    rows_view(matrix@) == fm,
                    fm == encoding_matrix(k as nat, p as nat),
                    has_shape(fm, (k + p) as nat, k as nat),
                    b <= block_len,
                    row@.len() == b,
                    forall|bb: int| 0 <= bb < b ==> #[trigger] row@[bb] == shard_of(k as nat, p as nat, dv, block_len as nat, k + pi)[bb],
                decreases block_len - b,
            {
                let ghost f = |d: int| gf_mul_spec(fm[k + pi][d], dv[d][b as int]);
                let mut val: u8 = 0;
                let mut d: usize = 0;
                while d < k
                    invariant
                        k + p <= 255,
                        pi < p,
                        b < block_len,
                        data@.len() == k,
                        dv == rows_view(data@),
                        rows_of_len(dv, block_len as nat),
                        rows_view(matrix@) == fm,
                        has_shape(fm, (k + p) as nat, k as nat),
                        d <= k,
                        f == (|d: int| gf_mul_spec(fm[k + pi][d], dv[d][b as int])),
                        val == xsum(f, d as nat),
                    decreases k - d,
                {
                    assert(dv[d as int].len() == block_len);
                    assert(fm[k + pi].len() == k);
                    val = val ^ gf_mul(matrix[k + pi][d], data[d][b]);
                    d += 1;
                }
                row.push(val);
                b += 1;
            }
            assert(row@ =~= shard_of(k as nat, p as nat, dv, block_len as nat, k + pi));
            parity.push(row);
            pi += 1;
        }
        assert(rows_view(parity@) =~= parity_of(k as nat, p as nat, dv, block_len as nat));
        Ok(parity)
    }

    /// Parity for a run of shards of unequal length: with at least `data_shards`
    /// shards, the first `data_shards`, each padded with zeros to the length of
    /// the first, are encoded; no parity when there are fewer shards, or when a
    /// shard is longer than the first.
    pub fn parity_for(&self, shards: &[Vec<u8>]) -> (res: Vec<Vec<u8>>)
        ensures
            shards@.len() < self@.0 ==> res@.len() == 0,
            shards@.len() >= self@.0 ==> ({
                let padded = padded_prefix(rows_view(shards@), self@.0);
                if rows_of_len(padded, shards@[0]@.len()) {
                    rows_view(res@) == parity_of(self@.0, self@.1, padded, shards@[0]@.len())
                } else {
                    res@.len() == 0
                }
            }),
    {
        proof { use_type_invariant(self); }
        let k = self.data_shards;
        if shards.len() < k {
            return Vec::new();
        }
        let block_len = shards[0].len();
        let ghost rows = rows_view(shards@);
        let mut padded: Vec<Vec<u8>> = Vec::new();
        let mut i: usize = 0;
        while i < k
            invariant
                k == self@.0,
                k <= shards@.len(),
                rows == rows_view(shards@),
                block_len == rows[0].len(),
                i <= k,
                padded@.len() == i,
                forall|j: int| 0 <= j < i ==> #[trigger] padded@[j]@ == pad_zeros(rows[j], block_len as nat),
            decreases k - i,
        {
            let src = &shards[i];
            let n = src.len();
            let mut row: Vec<u8> = Vec::new();
            let mut t: usize = 0;
            while t < n
                invariant
                    n == src@.len(),
                    t <= n,
                    row@ == src@.subrange(0, t as int),
                decreases n - t,
            {
                row.push(src[t]);
                t += 1;
                assert(row@ =~= src@.subrange(0, t as int));
            }
            assert(row@ =~= rows[i as int]);
            while row.len() < block_len
                invariant
                    row@.len() >= n,
                    row@.subrange(0, n as int) == rows[i as int],
                    n == rows[i as int].len(),
                    forall|q: int| n <= q < row@.len() ==> #[trigger] row@[q] == 0u8,
                    n < block_len ==> row@.len() <= block_len,
                    n >= block_len ==> row@.len() == n,
                decreases block_len - row.len(),
            {
                row.push(0u8);
                assert(row@.subrange(0, n as int) =~= rows[i as int]);
            }
            assert(row@ =~= pad_zeros(rows[i as int], block_len as nat));
            padded.push(row);
            i += 1;
        }
        proof {
            assert(rows_view(padded@) =~= padded_prefix(rows, k as nat));
        }
        match self.encode(&padded) {
            Ok(parity) => parity,
            Err(_) => Vec::new(),
        }
    }

    /// Rebuilds the data shards from any `data_shards` present shards
    /// (`None` marks a lost shard), reading the first `data_shards` present ones.
    pub fn reconstruct(&self, shards: &[Option<Vec<u8>>]) -> (res: Result<Vec<Vec<u8>>, RsError>)
        requires
            reconstructible_input(self@.0, self@.1, opt_view(shards@)),
        ensures
            match (res, recon_spec(self@.0, self@.1, opt_view(shards@))) {
                (Ok(r), Ok(d)) => rows_view(r@) == d,
                (Err(e1), Err(e2)) => e1 == e2,
                _ => false,
            },
    {
        proof { use_type_invariant(self); }
        let k = self.data_shards;
        let p = self.parity_shards;
        let ghost sv = opt_view(shards@);
        let mut present_indices: Vec<usize> = Vec::new();
        let mut i: usize = 0;
        while i < shards.len()
            invariant
                sv == opt_view(shards@),
                i <= shards@.len(),
                present_indices@.len() == present_upto(sv, i as int).len(),
                forall|t: int| 0 <= t < present_indices@.len() ==> #[trigger] present_indices@[t] as int == present_upto(sv, i as int)[t],
            decreases shards@.len() - i,
        {
            if shards[i].is_some() {
                present_indices.push(i);
            }
            i += 1;
        }
        proof { lemma_present_upto(sv, sv.len() as int); }
        let ghost pres = present(sv);
        if present_indices.len() < k {
            return Err(RsError::InsufficientShards { required: k, available: present_indices.len() });
        }
        let ghost u = used(sv, k as nat);
        assert forall|r: int| 0 <= r < k implies #[trigger] u[r] == present_indices@[r] as int && 0 <= u[r] < sv.len()
            && sv[u[r]] is Some && u[r] < k + p && sv[u[r]]->0.len() >= block_len(sv) by {
            assert(pres[r] == present_indices@[r] as int);
        }
        let first = present_indices[0];
        let blen = match &shards[first] {
            Some(v) => v.len(),
            None => 0,
        };
        assert(blen == block_len(sv));
        let full = self.full_encoding_matrix();
        let ghost fm = encoding_matrix(k as nat, p as nat);
        let mut sub: Vec<Vec<u8>> = Vec::new();
        let mut r: usize = 0;
        while r < k
            invariant
                k == self@.0,
                p == self@.1,
                k + p <= 255,
                present_indices@.len() >= k,
                forall|x: int| 0 <= x < k ==> #[trigger] u[x] == present_indices@[x] as int && u[x] < k + p,
                rows_view(full@) == fm,
                fm == encoding_matrix(k as nat, p as nat),
                has_shape(fm, (k + p) as nat, k as nat),
                u == used(sv, k as nat),
                r <= k,
                sub@.len() == r,
                forall|x: int| 0 <= x < r ==> #[trigger] sub@[x]@ == sub_matrix(k as nat, p as nat, sv)[x],
            decreases k - r,
        {
            let idx = present_indices[r];
            assert(u[r as int] == idx as int);
            assert(fm[idx as int].len() == k);
            let mut row: Vec<u8> = Vec::new();
            let mut c: usize = 0;
            while c < k
                invariant
                    k + p <= 255,
                    r < k,
                    idx < k + p,
                    u[r as int] == idx as int,
                    rows_view(full@) == fm,
                    fm == encoding_matrix(k as nat, p as nat),
                    has_shape(fm, (k + p) as nat, k as nat),
                    u == used(sv, k as nat),
                    c <= k,
                    row@.len() == c,
                    forall|cc: int| 0 <= cc < c ==> #[trigger] row@[cc] == fm[idx as int][cc],
                decreases k - c,
            {
                assert(full@[idx as int]@ == fm[idx as int]);
                row.push(full[idx][c]);
                c += 1;
            }
            assert(row@ =~= sub_matrix(k as nat, p as nat, sv)[r as int]);
            sub.push(row);
            r += 1;
        }
        let ghost smat = sub_matrix(k as nat, p as nat, sv);
        assert(rows_view(sub@) =~= smat);
        let inv = match invert_matrix(&sub, k) {
            Some(m) => m,
            None => {
                proof {
                    assert forall|cand: Seq<Seq<u8>>| !is_inverse_of(cand, smat, k as nat) by {
                        lemma_singular_no_left_inverse(smat, cand, k as nat);
                    }
                }
                return Err(RsError::InsufficientShards { required: k, available: present_indices.len() });
            }
        };
        let ghost invv = rows_view(inv@);
        let ghost ispec = inverse(smat, k as nat);
        proof {
            assert(invertible(smat, k as nat));
            lemma_inverse_unique(invv, ispec, smat, k as nat);
        }
        let mut result: Vec<Vec<u8>> = Vec::new();
        let mut o: usize = 0;
        while o < k
            invariant
                k == self@.0,
                o <= k,
                sv == opt_view(shards@),
                u == used(sv, k as nat),
                present_indices@.len() >= k,
                forall|x: int| 0 <= x < k ==> #[trigger] u[x] == present_indices@[x] as int && 0 <= u[x] < sv.len()
                    && sv[u[x]] is Some && sv[u[x]]->0.len() >= blen,
                blen == block_len(sv),
                invv == rows_view(inv@),
                has_shape(invv, k as nat, k as nat),
                forall|a: int, b: int| 0 <= a < k && 0 <= b < k ==> #[trigger] invv[a][b] == ispec[a][b],
                result@.len() == o,
                forall|x: int| 0 <= x < o ==> #[trigger] result@[x]@ == Seq::new(block_len(sv), |b: int|
                    xsum(|r: int| gf_mul_spec(ispec[x][r], sv[u[r]]->0[b]), k as nat)),
            decreases k - o,
        {
            let mut row: Vec<u8> = Vec::new();
            let mut b: usize = 0;
            while b < blen
                invariant
                    o < k,
                    b <= blen,
                    sv == opt_view(shards@),
                    u == used(sv, k as nat),
                    present_indices@.len() >= k,
                    forall|x: int| 0 <= x < k ==> #[trigger] u[x] == present_indices@[x] as int && 0 <= u[x] < sv.len()
                        && sv[u[x]] is Some && sv[u[x]]->0.len() >= blen,
                    invv == rows_view(inv@),
                    has_shape(invv, k as nat, k as nat),
                    forall|a: int, c: int| 0 <= a < k && 0 <= c < k ==> #[trigger] invv[a][c] == ispec[a][c],
                    row@.len() == b,
                    forall|bb: int| 0 <= bb < b ==> #[trigger] row@[bb]
                        == xsum(|r: int| gf_mul_spec(ispec[o as int][r], sv[u[r]]->0[bb]), k as nat),
                decreases blen - b,
            {
                let ghost f = |r: int| gf_mul_spec(ispec[o as int][r], sv[u[r]]->0[b as int]);
                let mut val: u8 = 0;
                let mut ir: usize = 0;
                while ir < k
                    invariant
                        o < k,
                        b < blen,
                        ir <= k,
                        sv == opt_view(shards@),
                        present_indices@.len() >= k,
                        forall|x: int| 0 <= x < k ==> #[trigger] u[x] == present_indices@[x] as int && 0 <= u[x] < sv.len()
                            && sv[u[x]] is Some && sv[u[x]]->0.len() >= blen,
                        invv == rows_view(inv@),
                        has_shape(invv, k as nat, k as nat),
                        forall|a: int, c: int| 0 <= a < k && 0 <= c < k ==> #[trigger] invv[a][c] == ispec[a][c],
                        f == (|r: int| gf_mul_spec(ispec[o as int][r], sv[u[r]]->0[b as int])),
                        val == xsum(f, ir as nat),
                    decreases k - ir,
                {
                    let idx = present_indices[ir];
                    assert(u[ir as int] == idx as int);
                    let byte = match &shards[idx] {
                        Some(v) => v[b],
                        None => 0,
                    };
                    assert(byte == sv[u[ir as int]]->0[b as int]);
                    assert(invv[o as int][ir as int] == ispec[o as int][ir as int]);
                    assert(inv@[o as int]@ == invv[o as int]);
                    val = val ^ gf_mul(inv[o][ir], byte);
                    ir += 1;
                }
                row.push(val);
                b += 1;
            }
            assert(row@ =~= Seq::new(block_len(sv), |bb: int|
                xsum(|r: int| gf_mul_spec(ispec[o as int][r], sv[u[r]]->0[bb]), k as nat)));
            result.push(row);
            o += 1;
        }
        assert(rows_view(result@) =~= recon_spec(k as nat, p as nat, sv)->Ok_0);
        Ok(result)
    }

    /// Fills in the missing data shards (slots below `data_shards` that are
    /// `None`); other slots are left as they are.
    pub fn reconstruct_data(&self, shards: &mut [Option<Vec<u8>>]) -> (res: Result<(), RsError>)
        requires
            reconstructible_input(self@.0, self@.1, opt_view(old(shards)@)),
        ensures
            match recon_spec(self@.0, self@.1, opt_view(old(shards)@)) {
                Err(e) => res == Err::<(), RsError>(e) && final(shards)@ == old(shards)@,
                Ok(d) => {
                    &&& res is Ok
                    &&& final(shards)@.len() == old(shards)@.len()
                    &&& forall|i: int| 0 <= i < old(shards)@.len() ==> #[trigger] opt_view(final(shards)@)[i]
                        == if i < self@.0 && old(shards)@[i] is None { Some(d[i]) } else { opt_view(old(shards)@)[i] }
                },
            },
    {
        proof { use_type_invariant(self); }
        let data = match self.reconstruct(shards) {
            Ok(d) => d,
            Err(e) => return Err(e),
        };
        let ghost sv = opt_view(old(shards)@);
        let ghost d = recon_spec(self@.0, self@.1, sv)->Ok_0;
        proof { lemma_present_upto(sv, sv.len() as int); }
        let k = self.data_shards;
        let mut i: usize = 0;
        while i < k
            invariant
                k == self@.0,
                i <= k,
                k <= shards@.len(),
                shards@.len() == old(shards)@.len(),
                rows_view(data@) == d,
                d.len() == k,
                forall|x: int| 0 <= x < old(shards)@.len() ==> #[trigger] opt_view(shards@)[x]
                    == if x < i && old(shards)@[x] is None { Some(d[x]) } else { sv[x] },
                sv == opt_view(old(shards)@),
            decreases k - i,
        {
            let ghost before = shards@;
            assert(opt_view(before)[i as int] == sv[i as int]);
            if shards[i].is_none() {
                let v = data[i].clone();
                assert(v@ =~= d[i as int]);
                shards[i] = Some(v);
                assert(shards@ == before.update(i as int, Some(v)));
                assert forall|x: int| 0 <= x < old(shards)@.len() implies #[trigger] opt_view(shards@)[x]
                    == if x < i + 1 && old(shards)@[x] is None { Some(d[x]) } else { sv[x] } by {
                    if x != i as int {
                        assert(opt_view(shards@)[x] == opt_view(before)[x]);
                    }
                }
            }
            i += 1;
        }
        Ok(())
    }

    /// Checks that `parity` is the encoding of `data`.
    pub fn verify(&self, data: &[Vec<u8>], parity: &[Vec<u8>]) -> (r: bool)
        ensures
            r == (data@.len() == self@.0 && parity@.len() == self@.1
                && rows_of_len(rows_view(data@), data@[0]@.len())
                && rows_of_len(rows_view(parity@), data@[0]@.len())
                && rows_view(parity@) == parity_of(self@.0, self@.1, rows_view(data@), data@[0]@.len())),
    {
        proof { use_type_invariant(self); }
        let k = self.data_shards;
        let p = self.parity_shards;
        if data.len() != k || parity.len() != p {
            return false;
        }
        let ghost dv = rows_view(data@);
        let ghost pv = rows_view(parity@);
        let block_len = data[0].len();
        let mut i: usize = 0;
        while i < k
            invariant
                data@.len() == k,
                i <= k,
                block_len == data@[0]@.len(),
                forall|j: int| 0 <= j < i ==> #[trigger] data@[j]@.len() == block_len,
            decreases k - i,
        {
            if data[i].len() != block_len {
                assert(rows_view(data@)[i as int] == data@[i as int]@);
                return false;
            }
            i += 1;
        }
        let mut i: usize = 0;
        while i < p
            invariant
                parity@.len() == p,
                i <= p,
                block_len == data@[0]@.len(),
                forall|j: int| 0 <= j < i ==> #[trigger] parity@[j]@.len() == block_len,
            decreases p - i,
        {
            if parity[i].len() != block_len {
                assert(rows_view(parity@)[i as int] == parity@[i as int]@);
                return false;
            }
            i += 1;
        }
        assert(rows_of_len(dv, block_len as nat)) by {
            assert forall|j: int| 0 <= j < dv.len() implies #[trigger] dv[j].len() == block_len by {
                assert(data@[j]@.len() == block_len);
            }
        }
        assert(rows_of_len(pv, block_len as nat)) by {
            assert forall|j: int| 0 <= j < pv.len() implies #[trigger] pv[j].len() == block_len by {
                assert(parity@[j]@.len() == block_len);
            }
        }
        let expected = match self.encode(data) {
            Ok(e) => e,
            Err(_) => return false,
        };
        let ghost ev = rows_view(expected@);
        let ghost target = parity_of(self@.0, self@.1, rows_view(data@), data@[0]@.len());
        assert(ev == target);
        let mut pi: usize = 0;
        while pi < p
            invariant
                ev == target,
                target == parity_of(self@.0, self@.1, rows_view(data@), data@[0]@.len()),
                k == self@.0,
                p == self@.1,
                dv == rows_view(data@),
                block_len == data@[0]@.len(),
                parity@.len() == p,
                pv == rows_view(parity@),
                ev == rows_view(expected@),
                ev.len() == p,
                rows_of_len(pv, block_len as nat),
                forall|x: int| 0 <= x < p ==> #[trigger] ev[x].len() == block_len,
                pi <= p,
                forall|x: int, b: int| 0 <= x < pi && 0 <= b < block_len ==> #[trigger] pv[x][b] == ev[x][b],
            decreases p - pi,
        {
            let mut b: usize = 0;
            assert(pv[pi as int].len() == block_len && ev[pi as int].len() == block_len);
            while b < block_len
                invariant
                    ev == target,
                    target == parity_of(self@.0, self@.1, rows_view(data@), data@[0]@.len()),
                    k == self@.0,
                    p == self@.1,
                    dv == rows_view(data@),
                    block_len == data@[0]@.len(),
                    parity@.len() == p,
                    pv == rows_view(parity@),
                    ev == rows_view(expected@),
                    ev.len() == p,
                    pi < p,
                    pv[pi as int].len() == block_len,
                    ev[pi as int].len() == block_len,
                    b <= block_len,
                    forall|x: int, c: int| 0 <= x < pi && 0 <= c < block_len ==> #[trigger] pv[x][c] == ev[x][c],
                    forall|c: int| 0 <= c < b ==> #[trigger] pv[pi as int][c] == ev[pi as int][c],
                decreases block_len - b,
            {
                assert(parity@[pi as int]@ == pv[pi as int]);
                assert(expected@[pi as int]@ == ev[pi as int]);
                if parity[pi][b] != expected[pi][b] {
                    assert(pv[pi as int][b as int] != ev[pi as int][b as int]);
                    assert(pv != target);
                    return false;
                }
                b += 1;
            }
            pi += 1;
        }
        assert forall|x: int| 0 <= x < p implies #[trigger] pv[x] =~= ev[x] by {}
        assert(pv =~= ev);
        assert(block_len == data@[0]@.len());
        true
    }

    /// A one-line summary such as `Reed-Solomon(4/6, 容错2=33%)`, around
    /// the percentage of shards the code may lose as the caller writes it
    /// (the ratio is a fraction, written to whole percent in floating point).
    pub fn describe(&self, percent: &str) -> (s: String)
        ensures
            s@ == summary(self@.0, self@.1, percent@),
    {
        proof { use_type_invariant(self); }
        let mut s = String::from_str("Reed-Solomon(");
        s.append(usize_to_string(self.data_shards).as_str());
        s.append("/");
        s.append(usize_to_string(self.total_shards).as_str());
        s.append(", 容错");
        s.append(usize_to_string(self.parity_shards).as_str());
        s.append("=");
        s.append(percent);
        s.append("%)");
        s
    }
}

} // verus!
