//! Smith-Normal-Form reduction modulo `m`: row operations driven by the
//! extended Euclidean algorithm diagonalize the working copy, and the
//! diagonal yields the invariant factors.  The whole reduction is
//! specified functionally (`snf_factors`), and the executable code is
//! proved to return exactly that value.

use vstd::prelude::*;
use vstd::arithmetic::div_mod::*;
use crate::arith::{abs_int, max_int, gcd, gcd_nat, extended_gcd, egcd_spec, lemma_gcd_divides,
    emod_i64, emod_i128};
use crate::matrix::{Matrix, ivec_view, rows_view};

verus! {

/// A working grid for reduction modulo `m`: square of size `n`, every
/// entry normalized into `[0, m)`.
pub open spec fn norm_grid(g: Seq<Vec<i64>>, n: int, m: int) -> bool {
    &&& g.len() == n
    &&& (forall|i: int| 0 <= i < n ==> #[trigger] g[i]@.len() == n)
    &&& (forall|i: int, j: int| 0 <= i < n && 0 <= j < n ==> 0 <= #[trigger] g[i]@[j] < m)
}

/// Non-decreasing order.
pub open spec fn sorted_seq(s: Seq<i64>) -> bool {
    forall|p: int, q: int| #![trigger s[p], s[q]] 0 <= p <= q < s.len() ==> s[p] <= s[q]
}

/// The non-negative gcd of two integers.
pub open spec fn gcd_int(a: int, b: int) -> int {
    gcd_nat(abs_int(a) as nat, abs_int(b) as nat) as int
}

/// Every entry reduced into `[0, m)`.
pub open spec fn normalize_spec(s: Seq<Seq<int>>, m: int) -> Seq<Seq<int>> {
    Seq::new(s.len(), |i: int| Seq::new(s[i].len(), |j: int| s[i][j] % m))
}

/// The first row at or below `from` with a nonzero entry in `col`;
/// `n` when there is none.
pub open spec fn find_pivot(g: Seq<Seq<int>>, col: int, from: int, n: int) -> int
    decreases n - from,
{
    if from >= n {
        n
    } else if g[from][col] != 0 {
        from
    } else {
        find_pivot(g, col, from + 1, n)
    }
}

/// Rows `i` and `j` exchanged.
pub open spec fn swap_rows_spec(g: Seq<Seq<int>>, i: int, j: int) -> Seq<Seq<int>> {
    g.update(i, g[j]).update(j, g[i])
}

/// The unimodular-style combination: the pivot row becomes
/// `(s*pivot + t*other) mod m` and the other row
/// `(-bq*pivot + aq*other) mod m`, both from the pre-update rows.
pub open spec fn combine_spec(
    g: Seq<Seq<int>>,
    rank: int,
    row: int,
    s: int,
    t: int,
    aq: int,
    bq: int,
    m: int,
    n: int,
) -> Seq<Seq<int>> {
    let pivot_new = Seq::new(n as nat, |k: int| (s * g[rank][k] + t * g[row][k]) % m);
    let other_new = Seq::new(n as nat, |k: int| ((-bq) * g[rank][k] + aq * g[row][k]) % m);
    g.update(rank, pivot_new).update(row, other_new)
}

/// One row of the elimination pass over column `col`.
pub open spec fn elim_row_step(g: Seq<Seq<int>>, m: int, n: int, col: int, rank: int, row: int)
    -> Seq<Seq<int>> {
    if row == rank || g[row][col] == 0 {
        g
    } else {
        let pe = g[rank][col];
        let oe = g[row][col];
        let gg = gcd_int(pe, oe);
        if gg == 0 {
            g
        } else {
            let st = egcd_spec(pe, oe);
            combine_spec(g, rank, row, st.1, st.2, pe / gg, oe / gg, m, n)
        }
    }
}

/// The elimination pass over rows `0 .. row` of column `col`.
pub open spec fn elim_rows(g: Seq<Seq<int>>, m: int, n: int, col: int, rank: int, row: int)
    -> Seq<Seq<int>>
    decreases row,
{
    if row <= 0 {
        g
    } else {
        elim_row_step(elim_rows(g, m, n, col, rank, row - 1), m, n, col, rank, row - 1)
    }
}

/// One column of the reduction: find a pivot at or below `rank`, swap
/// it into place, eliminate the column in every other row.
pub open spec fn col_step(g: Seq<Seq<int>>, rank: int, m: int, n: int, col: int) -> (
    Seq<Seq<int>>,
    int,
) {
    let p = find_pivot(g, col, rank, n);
    if p >= n {
        (g, rank)
    } else {
        let g1 = if p != rank {
            swap_rows_spec(g, rank, p)
        } else {
            g
        };
        (elim_rows(g1, m, n, col, rank, n), rank + 1)
    }
}

/// The reduction over columns `0 .. col`, returning the grid and the
/// rank pointer.
pub open spec fn snf_cols(g: Seq<Seq<int>>, m: int, n: int, col: int) -> (Seq<Seq<int>>, int)
    decreases col,
{
    if col <= 0 {
        (g, 0int)
    } else {
        let prev = snf_cols(g, m, n, col - 1);
        col_step(prev.0, prev.1, m, n, col - 1)
    }
}

/// The positive diagonal entries of the first `i` pivot rows, each
/// projected onto a divisor of `m` by `gcd(value, m)`.
pub open spec fn diag_factors(g: Seq<Seq<int>>, m: int, i: int) -> Seq<int>
    decreases i,
{
    if i <= 0 {
        Seq::empty()
    } else {
        let prev = diag_factors(g, m, i - 1);
        let val = g[i - 1][i - 1] % m;
        if val > 0 {
            prev + seq![gcd_int(val, m)]
        } else {
            prev
        }
    }
}

/// Insertion into a sorted sequence, before the first element that is
/// not smaller.
pub open spec fn insert_sorted(s: Seq<int>, x: int) -> Seq<int>
    decreases s.len(),
{
    if s.len() == 0 {
        seq![x]
    } else if x <= s[0] {
        seq![x] + s
    } else {
        seq![s[0]] + insert_sorted(s.drop_first(), x)
    }
}

/// Insertion sort of the first `i` elements.
pub open spec fn sort_prefix(s: Seq<int>, i: int) -> Seq<int>
    decreases i,
{
    if i <= 0 {
        Seq::empty()
    } else {
        insert_sorted(sort_prefix(s, i - 1), s[i - 1])
    }
}

/// The elements greater than 1 among the first `i`, in order.
pub open spec fn keep_gt1(s: Seq<int>, i: int) -> Seq<int>
    decreases i,
{
    if i <= 0 {
        Seq::empty()
    } else {
        let prev = keep_gt1(s, i - 1);
        if s[i - 1] > 1 {
            prev + seq![s[i - 1]]
        } else {
            prev
        }
    }
}

/// The invariant factor list of the reduction of `s` modulo `m`:
/// normalize, eliminate column by column, read the diagonal of the
/// pivot rows, project onto divisors of `m`, sort ascending, and keep
/// the values greater than 1.
pub open spec fn snf_factors(s: Seq<Seq<int>>, m: int) -> Seq<int> {
    let n = s.len() as int;
    let reduced = snf_cols(normalize_spec(s, m), m, n, n);
    let vals = diag_factors(reduced.0, m, reduced.1);
    let sorted = sort_prefix(vals, vals.len() as int);
    keep_gt1(sorted, sorted.len() as int)
}

/// Inserting `x` at the first position whose element is not below `x`
/// splits the sequence there.
proof fn lemma_insert_at(s: Seq<int>, x: int, p: int)
    requires
        0 <= p <= s.len(),
        forall|k: int| 0 <= k < p ==> #[trigger] s[k] < x,
        p < s.len() ==> x <= s[p],
    ensures
        insert_sorted(s, x) == s.take(p) + seq![x] + s.skip(p),
    decreases s.len(),
{
    if s.len() == 0 {
        assert(insert_sorted(s, x) =~= s.take(p) + seq![x] + s.skip(p));
    } else if x <= s[0] {
        assert(p == 0);
        assert(insert_sorted(s, x) =~= s.take(p) + seq![x] + s.skip(p));
    } else {
        assert(p >= 1) by {
            if p == 0 {
                assert(x <= s[0]);
            }
        }
        let d = s.drop_first();
        assert forall|k: int| 0 <= k < p - 1 implies #[trigger] d[k] < x by {
            assert(d[k] == s[k + 1]);
        }
        lemma_insert_at(d, x, p - 1);
        assert(insert_sorted(s, x) =~= s.take(p) + seq![x] + s.skip(p));
    }
}

/// A fresh copy of one row.
pub(crate) fn copy_row(r: &Vec<i64>) -> (c: Vec<i64>)
    ensures
        c@ == r@,
{
    let mut c: Vec<i64> = Vec::new();
    let mut k: usize = 0;
    while k < r.len()
        invariant
            k <= r@.len(),
            c@.len() == k,
            forall|q: int| 0 <= q < k ==> #[trigger] c@[q] == r@[q],
        decreases r@.len() - k,
    {
        let x = r[k];
        c.push(x);
        k += 1;
    }
    proof {
        assert(c@ =~= r@);
    }
    c
}

/// Exchanges two rows of the working grid.
fn swap_rows(mat: &mut Vec<Vec<i64>>, i: usize, j: usize)
    requires
        i < old(mat)@.len(),
        j < old(mat)@.len(),
        i != j,
    ensures
        final(mat)@.len() == old(mat)@.len(),
        final(mat)@[i as int]@ == old(mat)@[j as int]@,
        final(mat)@[j as int]@ == old(mat)@[i as int]@,
        forall|k: int|
            0 <= k < old(mat)@.len() && k != i && k != j ==> #[trigger] final(mat)@[k]@ == old(
                mat,
            )@[k]@,
{
    let a = copy_row(&mat[i]);
    let b = copy_row(&mat[j]);
    mat[i] = b;
    mat[j] = a;
}

/// Replaces the pivot row with `(s*pivot + t*other) mod m` and the other
/// row with `(-bq*pivot + aq*other) mod m`, both computed from the
/// pre-update rows in 128-bit intermediates.
fn combine_rows(mat: &mut Vec<Vec<i64>>, rank: usize, row: usize, s: i64, t: i64, aq: i64, bq: i64, m: i64)
    requires
        norm_grid(old(mat)@, old(mat)@.len() as int, m as int),
        rank < old(mat)@.len(),
        row < old(mat)@.len(),
        rank != row,
        2 <= m,
        abs_int(s as int) <= m - 1,
        abs_int(t as int) <= m - 1,
        0 <= aq <= m - 1,
        0 <= bq <= m - 1,
    ensures
        norm_grid(final(mat)@, old(mat)@.len() as int, m as int),
        forall|k: int|
            0 <= k < old(mat)@.len() ==> #[trigger] final(mat)@[rank as int]@[k] as int == ((
            s as int) * old(mat)@[rank as int]@[k] + (t as int) * old(mat)@[row as int]@[k]) % (
            m as int),
        forall|k: int|
            0 <= k < old(mat)@.len() ==> #[trigger] final(mat)@[row as int]@[k] as int == ((-(
            bq as int)) * old(mat)@[rank as int]@[k] + (aq as int) * old(mat)@[row as int]@[k]) % (
            m as int),
        forall|p: int|
            0 <= p < old(mat)@.len() && p != rank && p != row ==> #[trigger] final(mat)@[p]@ == old(
                mat,
            )@[p]@,
{
    let n = mat.len();
    let mut new_rank: Vec<i64> = Vec::new();
    let mut new_row: Vec<i64> = Vec::new();
    let mut k: usize = 0;
    while k < n
        invariant
            norm_grid(mat@, n as int, m as int),
            mat@ == old(mat)@,
            n == mat@.len(),
            rank < n,
            row < n,
            rank != row,
            2 <= m,
            abs_int(s as int) <= m - 1,
            abs_int(t as int) <= m - 1,
            0 <= aq <= m - 1,
            0 <= bq <= m - 1,
            k <= n,
            new_rank@.len() == k,
            new_row@.len() == k,
            forall|q: int|
                0 <= q < k ==> #[trigger] new_rank@[q] as int == ((s as int) * mat@[rank as int]@[q]
                    + (t as int) * mat@[row as int]@[q]) % (m as int),
            forall|q: int|
                0 <= q < k ==> #[trigger] new_row@[q] as int == ((-(bq as int))
                    * mat@[rank as int]@[q] + (aq as int) * mat@[row as int]@[q]) % (m as int),
            forall|q: int| 0 <= q < k ==> 0 <= #[trigger] new_rank@[q] < m,
            forall|q: int| 0 <= q < k ==> 0 <= #[trigger] new_row@[q] < m,
        decreases n - k,
    {
        let t1 = mat[rank][k];
        let t2 = mat[row][k];
        proof {
            assert(0 <= t1 < m && 0 <= t2 < m);
            assert(abs_int((s as int) * (t1 as int) + (t as int) * (t2 as int)) <= 2 * ((m - 1)
                * (m - 1)) && abs_int(-(bq as int) * (t1 as int) + (aq as int) * (t2 as int)) <= 2
                * ((m - 1) * (m - 1)) && abs_int((s as int) * (t1 as int)) <= (m - 1) * (m - 1)
                && abs_int((t as int) * (t2 as int)) <= (m - 1) * (m - 1) && abs_int(
                (bq as int) * (t1 as int)) <= (m - 1) * (m - 1) && abs_int(
                (-(bq as int)) * (t1 as int)) <= (m - 1) * (m - 1) && abs_int(
                (aq as int) * (t2 as int)) <= (m - 1) * (m - 1)) by (nonlinear_arith)
                requires
                    0 <= t1 as int <= m - 1,
                    0 <= t2 as int <= m - 1,
                    abs_int(s as int) <= m - 1,
                    abs_int(t as int) <= m - 1,
                    0 <= aq as int <= m - 1,
                    0 <= bq as int <= m - 1,
                    2 <= m,
            ;
            assert(2 * ((m - 1) * (m - 1)) < i128::MAX) by (nonlinear_arith)
                requires
                    2 <= m <= 0x7fff_ffff_ffff_ffff,
            ;
        }
        let x1: i128 = (s as i128) * (t1 as i128) + (t as i128) * (t2 as i128);
        let v1 = emod_i128(x1, m as i128);
        let x2: i128 = -(bq as i128) * (t1 as i128) + (aq as i128) * (t2 as i128);
        let v2 = emod_i128(x2, m as i128);
        new_rank.push(v1 as i64);
        new_row.push(v2 as i64);
        k += 1;
    }
    mat[rank] = new_rank;
    mat[row] = new_row;
    proof {
        assert forall|i: int| 0 <= i < n implies #[trigger] mat@[i]@.len() == n by {}
        assert forall|i: int, j: int| 0 <= i < n && 0 <= j < n implies 0 <= #[trigger] mat@[i]@[j]
            < m by {}
    }
}

/// Inserts `x` into a sorted vector, keeping it sorted; the result is
/// exactly the specification-level insertion.
fn insert_asc(out: Vec<i64>, x: i64) -> (r: Vec<i64>)
    requires
        sorted_seq(out@),
    ensures
        sorted_seq(r@),
        r@.len() == out@.len() + 1,
        ivec_view(r@) == insert_sorted(ivec_view(out@), x as int),
        forall|k: int| 0 <= k < r@.len() ==> r@[k] == x || out@.contains(#[trigger] r@[k]),
{
    let n = out.len();
    let mut p: usize = 0;
    while p < n && out[p] < x
        invariant
            p <= n,
            n == out@.len(),
            forall|k: int| 0 <= k < p ==> #[trigger] out@[k] < x,
        decreases n - p,
    {
        p += 1;
    }
    let mut r: Vec<i64> = Vec::new();
    let mut k: usize = 0;
    while k < p
        invariant
            p <= n,
            n == out@.len(),
            k <= p,
            r@.len() == k,
            forall|q: int| 0 <= q < k ==> #[trigger] r@[q] == out@[q],
        decreases p - k,
    {
        let e = out[k];
        r.push(e);
        k += 1;
    }
    r.push(x);
    let mut k2: usize = p;
    while k2 < n
        invariant
            p <= n,
            n == out@.len(),
            p <= k2 <= n,
            r@.len() == k2 + 1,
            forall|q: int| 0 <= q < p ==> #[trigger] r@[q] == out@[q],
            r@[p as int] == x,
            forall|q: int| p < q < k2 + 1 ==> #[trigger] r@[q] == out@[q - 1],
        decreases n - k2,
    {
        let e = out[k2];
        r.push(e);
        k2 += 1;
    }
    proof {
        let ov = ivec_view(out@);
        assert forall|q: int| 0 <= q < p implies #[trigger] ov[q] < x by {
            assert(out@[q] < x);
        }
        lemma_insert_at(ov, x as int, p as int);
        assert(ivec_view(r@) =~= ov.take(p as int) + seq![x as int] + ov.skip(p as int));
        // Sortedness: the prefix lies below x, the suffix at or above.
        assert forall|a: int, b: int| #![trigger r@[a], r@[b]]
            0 <= a <= b < r@.len() implies r@[a] <= r@[b] by {
            if b < p {
                assert(r@[a] == out@[a] && r@[b] == out@[b]);
            } else if a < p && b == p {
                assert(r@[a] == out@[a]);
            } else if a < p && b > p {
                assert(r@[a] == out@[a] && r@[b] == out@[b - 1]);
            } else if a == p && b > p {
                assert(r@[b] == out@[b - 1]);
                assert(x <= out@[p as int]);
                assert(out@[p as int] <= out@[b - 1]);
            } else if a > p {
                assert(r@[a] == out@[a - 1] && r@[b] == out@[b - 1]);
            }
        }
        assert forall|q: int| 0 <= q < r@.len() implies r@[q] == x || out@.contains(
            #[trigger] r@[q],
        ) by {
            if q < p {
                assert(r@[q] == out@[q]);
            } else if q > p {
                assert(r@[q] == out@[q - 1]);
            }
        }
    }
    r
}

/// Sorts into non-decreasing order by insertion; the result is exactly
/// the specification-level insertion sort, and every element of the
/// result occurs in the input.
fn sort_asc(v: Vec<i64>) -> (r: Vec<i64>)
    ensures
        r@.len() == v@.len(),
        sorted_seq(r@),
        ivec_view(r@) == sort_prefix(ivec_view(v@), v@.len() as int),
        forall|k: int| 0 <= k < r@.len() ==> v@.contains(#[trigger] r@[k]),
{
    let n = v.len();
    let mut out: Vec<i64> = Vec::new();
    let mut i: usize = 0;
    while i < n
        invariant
            n == v@.len(),
            i <= n,
            out@.len() == i,
            sorted_seq(out@),
            ivec_view(out@) == sort_prefix(ivec_view(v@), i as int),
            forall|k: int| 0 <= k < out@.len() ==> v@.contains(#[trigger] out@[k]),
        decreases n - i,
    {
        let x = v[i];
        let ghost prev = out@;
        out = insert_asc(out, x);
        proof {
            assert(ivec_view(v@)[i as int] == x as int);
            assert(sort_prefix(ivec_view(v@), i + 1) == insert_sorted(
                sort_prefix(ivec_view(v@), i as int),
                ivec_view(v@)[i as int],
            ));
            assert forall|k: int| 0 <= k < out@.len() implies v@.contains(#[trigger] out@[k]) by {
                if out@[k] != x {
                    assert(prev.contains(out@[k]));
                    let w = choose|w: int| 0 <= w < prev.len() && prev[w] == out@[k];
                    assert(v@.contains(prev[w]));
                } else {
                    assert(v@[i as int] == x);
                }
            }
        }
        i += 1;
    }
    out
}

impl Matrix {
    /// Invariant factors of the matrix modulo `m`, exactly the value of
    /// `snf_factors`: diagonalize the normalized working copy by
    /// unimodular-style row combinations, project the positive diagonal
    /// entries onto divisors of `m` by `gcd(value, m)`, sort ascending,
    /// and keep the values greater than 1.
    ///
    /// The result is a non-decreasing list of divisors of `m`, each
    /// greater than 1, at most `n` of them.  Two readings of the
    /// surrounding theory are settled by the algorithm itself: a 1x1
    /// matrix `[[k]]` reduces to the empty list (its sole entry is 0
    /// modulo `|k|`), the cyclic group of order `|k|`; and consecutive
    /// factors need not divide one another (`[[2,0],[0,3]]` modulo 6
    /// yields `[2, 3]`) -- only the sorted-divisor reading is promised.
    pub fn smith_normal_form(&self, modulo: i64) -> (r: Vec<i64>)
        requires
            self.wf(),
            modulo >= 1,
        ensures
            ivec_view(r@) == snf_factors(self@, modulo as int),
            r@.len() <= self@.len(),
            sorted_seq(r@),
            forall|k: int|
                0 <= k < r@.len() ==> 1 < #[trigger] r@[k] <= modulo && (modulo as int) % (
                r@[k] as int) == 0,
    {
        let n = self.n;
        let m = modulo;
        let ghost sview = self@;
        let ghost mi = m as int;
        let ghost nn = n as int;
        let ghost g0 = normalize_spec(sview, mi);
        proof {
            assert forall|p: int| 0 <= p < nn implies #[trigger] sview[p].len() == nn by {
                assert(sview[p].len() == self.data@[p]@.len());
            }
        }
        // Working copy with every entry normalized into [0, m).
        let mut mat: Vec<Vec<i64>> = Vec::new();
        let mut i: usize = 0;
        while i < n
            invariant
                self.wf(),
                n == self.n,
                sview == self@,
                mi == m as int,
                nn == n as int,
                m >= 1,
                i <= n,
                mat@.len() == i,
                forall|p: int| 0 <= p < i ==> #[trigger] mat@[p]@.len() == n,
                forall|p: int, q: int| 0 <= p < i && 0 <= q < n ==> 0 <= #[trigger] mat@[p]@[q] < m,
                forall|p: int, q: int|
                    0 <= p < i && 0 <= q < n ==> #[trigger] mat@[p]@[q] as int == sview[p][q] % mi,
            decreases n - i,
        {
            let mut row: Vec<i64> = Vec::new();
            let mut j: usize = 0;
            while j < n
                invariant
                    self.wf(),
                    n == self.n,
                    sview == self@,
                    mi == m as int,
                    m >= 1,
                    i < n,
                    j <= n,
                    row@.len() == j,
                    forall|q: int| 0 <= q < j ==> 0 <= #[trigger] row@[q] < m,
                    forall|q: int|
                        0 <= q < j ==> #[trigger] row@[q] as int == sview[i as int][q] % mi,
                decreases n - j,
            {
                let e = self.data[i][j];
                proof {
                    assert(sview[i as int][j as int] == e as int);
                }
                let v = emod_i64(e, m);
                row.push(v);
                j += 1;
            }
            mat.push(row);
            i += 1;
        }
        proof {
            assert forall|p: int| 0 <= p < nn implies #[trigger] rows_view(mat@)[p] =~= g0[p] by {
                assert(rows_view(mat@)[p] == ivec_view(mat@[p]@));
            }
            assert(rows_view(mat@) =~= g0);
            assert(snf_cols(g0, mi, nn, 0) == (g0, 0int));
        }
        // Column-by-column elimination, tracked against the
        // specification fold.
        let mut rank: usize = 0;
        let mut col: usize = 0;
        while col < n
            invariant
                norm_grid(mat@, n as int, m as int),
                1 <= n,
                nn == n as int,
                mi == m as int,
                m >= 1,
                rank <= col,
                col <= n,
                rows_view(mat@) == snf_cols(g0, mi, nn, col as int).0,
                rank as int == snf_cols(g0, mi, nn, col as int).1,
            decreases n - col,
        {
            let ghost gcur = rows_view(mat@);
            // First row at or below `rank` with a nonzero entry.
            let mut pivot_row: usize = n;
            let mut rs: usize = rank;
            while rs < n && pivot_row == n
                invariant
                    norm_grid(mat@, n as int, m as int),
                    nn == n as int,
                    gcur == rows_view(mat@),
                    col < n,
                    rank <= rs <= n,
                    pivot_row <= n,
                    pivot_row == n ==> find_pivot(gcur, col as int, rank as int, nn) == find_pivot(
                        gcur,
                        col as int,
                        rs as int,
                        nn,
                    ),
                    pivot_row < n ==> (rank <= pivot_row < n && find_pivot(
                        gcur,
                        col as int,
                        rank as int,
                        nn,
                    ) == pivot_row as int && mat@[pivot_row as int]@[col as int] != 0),
                decreases n - rs + (if pivot_row == n {
                    1int
                } else {
                    0int
                }),
            {
                proof {
                    assert(gcur[rs as int][col as int] == mat@[rs as int]@[col as int] as int);
                }
                if mat[rs][col] != 0 {
                    pivot_row = rs;
                } else {
                    rs += 1;
                }
            }
            if pivot_row < n {
                let ghost p = pivot_row as int;
                if pivot_row != rank {
                    swap_rows(&mut mat, rank, pivot_row);
                    proof {
                        assert forall|k: int| 0 <= k < nn implies #[trigger] rows_view(mat@)[k]
                            == swap_rows_spec(gcur, rank as int, p)[k] by {
                            assert(rows_view(mat@)[k] == ivec_view(mat@[k]@));
                        }
                        assert(rows_view(mat@) =~= swap_rows_spec(gcur, rank as int, p));
                        assert forall|a: int, b: int|
                            0 <= a < nn && 0 <= b < nn implies 0 <= #[trigger] mat@[a]@[b] < m by {}
                    }
                }
                let ghost g1 = rows_view(mat@);
                // Combine every other row holding a nonzero entry in
                // this column with the pivot row.
                let mut row: usize = 0;
                while row < n
                    invariant
                        norm_grid(mat@, n as int, m as int),
                        nn == n as int,
                        mi == m as int,
                        col < n,
                        rank < n,
                        m >= 1,
                        row <= n,
                        rows_view(mat@) == elim_rows(
                            g1,
                            mi,
                            nn,
                            col as int,
                            rank as int,
                            row as int,
                        ),
                    decreases n - row,
                {
                    let ghost gprev = rows_view(mat@);
                    proof {
                        assert(gprev[row as int][col as int] == mat@[row as int]@[col as int] as int);
                    }
                    if row != rank && mat[row][col] != 0 {
                        let pe = mat[rank][col];
                        let oe = mat[row][col];
                        proof {
                            assert(gprev[rank as int][col as int] == pe as int);
                            assert(gprev[row as int][col as int] == oe as int);
                        }
                        let g = gcd(pe, oe);
                        proof {
                            lemma_gcd_divides(pe as nat, oe as nat);
                            assert(g as int == gcd_int(pe as int, oe as int));
                        }
                        if g != 0 {
                            let (_g2, s, t) = extended_gcd(pe, oe);
                            proof {
                                lemma_div_pos_is_pos(pe as int, g as int);
                                lemma_div_is_ordered_by_denominator(pe as int, 1, g as int);
                                lemma_div_pos_is_pos(oe as int, g as int);
                                lemma_div_is_ordered_by_denominator(oe as int, 1, g as int);
                                lemma_div_by_self(g as int);
                            }
                            let aq = pe / g;
                            let bq = oe / g;
                            proof {
                                assert(oe >= 1 && oe < m);
                                assert(m >= 2);
                                assert(abs_int(s as int) <= max_int(1, oe as int));
                                assert(abs_int(t as int) <= max_int(1, pe as int));
                            }
                            let ghost before = mat@;
                            combine_rows(&mut mat, rank, row, s, t, aq, bq, m);
                            proof {
                                let st = egcd_spec(pe as int, oe as int);
                                assert((_g2 as int, s as int, t as int) == st);
                                let target = combine_spec(
                                    gprev,
                                    rank as int,
                                    row as int,
                                    s as int,
                                    t as int,
                                    aq as int,
                                    bq as int,
                                    mi,
                                    nn,
                                );
                                assert forall|k: int| 0 <= k < nn implies #[trigger] rows_view(
                                    mat@,
                                )[k] =~= target[k] by {
                                    assert(rows_view(mat@)[k] == ivec_view(mat@[k]@));
                                    if k == rank as int {
                                        assert forall|q: int| 0 <= q < nn implies ivec_view(
                                            mat@[k]@,
                                        )[q] == target[k][q] by {
                                            assert(mat@[k]@[q] as int == ((s as int)
                                                * before[rank as int]@[q] + (t as int)
                                                * before[row as int]@[q]) % mi);
                                            assert(gprev[rank as int][q] == before[rank as int]@[q]
                                                as int);
                                            assert(gprev[row as int][q] == before[row as int]@[q]
                                                as int);
                                        }
                                    } else if k == row as int {
                                        assert forall|q: int| 0 <= q < nn implies ivec_view(
                                            mat@[k]@,
                                        )[q] == target[k][q] by {
                                            assert(mat@[k]@[q] as int == ((-(bq as int))
                                                * before[rank as int]@[q] + (aq as int)
                                                * before[row as int]@[q]) % mi);
                                            assert(gprev[rank as int][q] == before[rank as int]@[q]
                                                as int);
                                            assert(gprev[row as int][q] == before[row as int]@[q]
                                                as int);
                                        }
                                    } else {
                                        assert(mat@[k]@ == before[k]@);
                                    }
                                }
                                assert(rows_view(mat@) =~= target);
                                assert(elim_row_step(gprev, mi, nn, col as int, rank as int,
                                    row as int) == target);
                            }
                        }
                    } else {
                        proof {
                            assert(elim_row_step(gprev, mi, nn, col as int, rank as int, row as int)
                                == gprev);
                        }
                    }
                    row += 1;
                }
                rank += 1;
                proof {
                    assert(col_step(gcur, (rank - 1) as int, mi, nn, col as int) == (
                        elim_rows(g1, mi, nn, col as int, (rank - 1) as int, nn),
                        rank as int,
                    ));
                    assert(snf_cols(g0, mi, nn, col + 1).0 == rows_view(mat@));
                    assert(snf_cols(g0, mi, nn, col + 1).1 == rank as int);
                }
            } else {
                proof {
                    assert(rs == n);
                    assert(find_pivot(gcur, col as int, rank as int, nn) == nn);
                    assert(col_step(gcur, rank as int, mi, nn, col as int) == (gcur, rank as int));
                    assert(snf_cols(g0, mi, nn, col + 1).0 == rows_view(mat@));
                    assert(snf_cols(g0, mi, nn, col + 1).1 == rank as int);
                }
            }
            col += 1;
        }
        let ghost gfin = rows_view(mat@);
        // Diagonal entries of the completed pivot rows, projected onto
        // divisors of m.
        let mut vals: Vec<i64> = Vec::new();
        let mut d: usize = 0;
        while d < rank
            invariant
                norm_grid(mat@, n as int, m as int),
                gfin == rows_view(mat@),
                mi == m as int,
                rank <= n,
                m >= 1,
                d <= rank,
                vals@.len() <= d,
                ivec_view(vals@) == diag_factors(gfin, mi, d as int),
                forall|k: int|
                    0 <= k < vals@.len() ==> 1 <= #[trigger] vals@[k] <= m && (m as int) % (
                    vals@[k] as int) == 0,
            decreases rank - d,
        {
            let entry = mat[d][d];
            let val = entry % m;
            proof {
                assert(gfin[d as int][d as int] == entry as int);
                lemma_mod_division_less_than_divisor(entry as int, m as int);
            }
            if val > 0 {
                let g = gcd(val, m);
                proof {
                    lemma_gcd_divides(val as nat, m as nat);
                    assert(g as int == gcd_int(val as int, mi));
                }
                let ghost vals0 = vals@;
                vals.push(g);
                proof {
                    assert forall|q: int| 0 <= q < vals@.len() implies #[trigger] ivec_view(
                        vals@,
                    )[q] == diag_factors(gfin, mi, d + 1)[q] by {
                        if q < vals0.len() {
                            assert(ivec_view(vals0)[q] == diag_factors(gfin, mi, d as int)[q]);
                            assert(vals@[q] == vals0[q]);
                        } else {
                            assert(vals@[q] == g);
                        }
                    }
                    assert(ivec_view(vals@) =~= diag_factors(gfin, mi, d + 1));
                }
            }
            d += 1;
        }
        // Ascending order, then drop everything not exceeding 1.
        let sorted = sort_asc(vals);
        proof {
            assert forall|k: int| 0 <= k < sorted@.len() implies 1 <= #[trigger] sorted@[k] <= m
                && (m as int) % (sorted@[k] as int) == 0 by {
                assert(vals@.contains(sorted@[k]));
                let idx = choose|idx: int| 0 <= idx < vals@.len() && vals@[idx] == sorted@[k];
                assert(vals@[idx] == sorted@[k]);
            }
        }
        let mut out: Vec<i64> = Vec::new();
        let mut f: usize = 0;
        while f < sorted.len()
            invariant
                sorted@.len() <= n,
                sorted_seq(sorted@),
                forall|k: int|
                    0 <= k < sorted@.len() ==> 1 <= #[trigger] sorted@[k] <= m && (m as int) % (
                    sorted@[k] as int) == 0,
                f <= sorted@.len(),
                out@.len() <= f,
                sorted_seq(out@),
                ivec_view(out@) == keep_gt1(ivec_view(sorted@), f as int),
                forall|k: int|
                    0 <= k < out@.len() ==> 1 < #[trigger] out@[k] <= m && (m as int) % (
                    out@[k] as int) == 0,
                out@.len() > 0 && f > 0 ==> out@[out@.len() - 1] <= sorted@[f - 1],
                out@.len() > 0 ==> f > 0,
            decreases sorted@.len() - f,
        {
            let x = sorted[f];
            proof {
                assert(ivec_view(sorted@)[f as int] == x as int);
            }
            if x > 1 {
                let ghost out0 = out@;
                out.push(x);
                proof {
                    assert forall|q: int| 0 <= q < out@.len() implies #[trigger] ivec_view(out@)[q]
                        == keep_gt1(ivec_view(sorted@), f + 1)[q] by {
                        if q < out0.len() {
                            assert(ivec_view(out0)[q] == keep_gt1(ivec_view(sorted@), f as int)[q]);
                            assert(out@[q] == out0[q]);
                        } else {
                            assert(out@[q] == x);
                        }
                    }
                    assert(ivec_view(out@) =~= keep_gt1(ivec_view(sorted@), f + 1));
                    assert forall|pp: int, qq: int| #![trigger out@[pp], out@[qq]]
                        0 <= pp <= qq < out@.len() implies out@[pp] <= out@[qq] by {
                        if qq < out0.len() {
                            assert(out@[pp] == out0[pp] && out@[qq] == out0[qq]);
                        } else if pp < qq {
                            assert(out@[pp] == out0[pp]);
                            assert(out0[pp] <= sorted@[f - 1]);
                            assert(sorted@[f - 1] <= sorted@[f as int]);
                        }
                    }
                }
            }
            f += 1;
        }
        proof {
            assert(sview.len() == nn);
            assert(ivec_view(out@) == snf_factors(sview, mi)) by {
                assert(normalize_spec(sview, mi) == g0);
                assert(snf_cols(g0, mi, nn, nn).0 == gfin);
                assert(snf_cols(g0, mi, nn, nn).1 == rank as int);
                assert(diag_factors(gfin, mi, rank as int) == ivec_view(vals@));
                assert(ivec_view(sorted@) == sort_prefix(ivec_view(vals@), vals@.len() as int));
                assert(ivec_view(out@) == keep_gt1(ivec_view(sorted@), sorted@.len() as int));
            }
        }
        out
    }
}

} // verus!
