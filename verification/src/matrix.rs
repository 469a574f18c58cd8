//! The square integer matrix and its elementary observations: building,
//! reading entries, the symmetry check, and the matrix-vector product
//! modulo a positive integer.

use vstd::prelude::*;
use vstd::arithmetic::div_mod::*;
use crate::arith::emod_i128;

verus! {

/// An `n x n` grid of signed integers, `1 <= n <= 20`.
pub struct Matrix {
    pub data: Vec<Vec<i64>>,
    pub n: usize,
}

/// The mathematical view of a vector of machine integers.
pub open spec fn ivec_view(v: Seq<i64>) -> Seq<int> {
    v.map_values(|x: i64| x as int)
}

/// The mathematical view of a grid of machine integers.
pub open spec fn rows_view(rows: Seq<Vec<i64>>) -> Seq<Seq<int>> {
    rows.map_values(|r: Vec<i64>| ivec_view(r@))
}

/// A well-shaped view: square, with the supported dimension range.
pub open spec fn square_view(s: Seq<Seq<int>>) -> bool {
    &&& 1 <= s.len() <= 20
    &&& forall|i: int| 0 <= i < s.len() ==> #[trigger] s[i].len() == s.len()
}

/// Entry `(i, j)` equals entry `(j, i)` throughout.
pub open spec fn symmetric_spec(s: Seq<Seq<int>>) -> bool {
    forall|i: int, j: int|
        0 <= i < s.len() && 0 <= j < s.len() ==> #[trigger] s[i][j] == s[j][i]
}

/// Every entry lies in `[-b, b]`.
pub open spec fn entries_bounded(s: Seq<Seq<int>>, b: int) -> bool {
    forall|i: int, j: int|
        0 <= i < s.len() && 0 <= j < s[i].len() ==> -b <= #[trigger] s[i][j] <= b
}

/// Every component lies in `[-c, c]`.
pub open spec fn vec_bounded(v: Seq<int>, c: int) -> bool {
    forall|j: int| 0 <= j < v.len() ==> -c <= #[trigger] v[j] <= c
}

/// Bounds under which the modular matrix-vector product accumulates
/// without overflowing its 128-bit intermediates.
pub open spec fn mul_bounds_ok(s: Seq<Seq<int>>, v: Seq<int>, b: int, c: int) -> bool {
    &&& 0 <= b
    &&& 0 <= c
    &&& entries_bounded(s, b)
    &&& vec_bounded(v, c)
    &&& s.len() * b * c <= i128::MAX
}

/// Dot product of the first `k` components.
pub open spec fn dot_prefix(r: Seq<int>, v: Seq<int>, k: int) -> int
    decreases k,
{
    if k <= 0 {
        0
    } else {
        dot_prefix(r, v, k - 1) + r[k - 1] * v[k - 1]
    }
}

impl View for Matrix {
    type V = Seq<Seq<int>>;

    open spec fn view(&self) -> Seq<Seq<int>> {
        rows_view(self.data@)
    }
}

impl Matrix {
    /// Shape invariant: the stored dimension matches the grid.
    pub open spec fn wf(&self) -> bool {
        &&& 1 <= self.n <= 20
        &&& self.data@.len() == self.n
        &&& forall|i: int| 0 <= i < self.n ==> #[trigger] self.data@[i]@.len() == self.n
    }

    /// A zero-filled `n x n` matrix.
    pub fn new(n: usize) -> (m: Matrix)
        requires
            1 <= n <= 20,
        ensures
            m.wf(),
            m@.len() == n,
            forall|i: int, j: int| 0 <= i < n && 0 <= j < n ==> #[trigger] m@[i][j] == 0,
    {
        let mut data: Vec<Vec<i64>> = Vec::new();
        let mut i: usize = 0;
        while i < n
            invariant
                i <= n,
                data@.len() == i,
                forall|p: int| 0 <= p < i ==> #[trigger] data@[p]@.len() == n,
                forall|p: int, q: int|
                    0 <= p < i && 0 <= q < n ==> #[trigger] data@[p]@[q] == 0i64,
            decreases n - i,
        {
            let mut row: Vec<i64> = Vec::new();
            let mut j: usize = 0;
            while j < n
                invariant
                    j <= n,
                    row@.len() == j,
                    forall|q: int| 0 <= q < j ==> #[trigger] row@[q] == 0i64,
                decreases n - j,
            {
                row.push(0);
                j += 1;
            }
            data.push(row);
            i += 1;
        }
        Matrix { data, n }
    }

    /// Builds a matrix from its rows.  Returns `Some` exactly when the
    /// grid is square with a supported dimension.
    pub fn from_rows(rows: Vec<Vec<i64>>) -> (res: Option<Matrix>)
        ensures
            res is Some <==> square_view(rows_view(rows@)),
            res is Some ==> res.unwrap().wf() && res.unwrap()@ == rows_view(rows@),
    {
        let n = rows.len();
        if n < 1 || n > 20 {
            return None;
        }
        let mut i: usize = 0;
        while i < n
            invariant
                i <= n,
                n == rows@.len(),
                1 <= n <= 20,
                forall|p: int| 0 <= p < i ==> #[trigger] rows@[p]@.len() == n,
            decreases n - i,
        {
            if rows[i].len() != n {
                assert(rows_view(rows@)[i as int].len() != rows_view(rows@).len());
                return None;
            }
            i += 1;
        }
        Some(Matrix { data: rows, n })
    }

    /// The dimension `n`.
    pub fn dim(&self) -> (d: usize)
        requires
            self.wf(),
        ensures
            d == self@.len(),
    {
        self.n
    }

    /// The entry at row `i`, column `j`.
    pub fn entry(&self, i: usize, j: usize) -> (x: i64)
        requires
            self.wf(),
            i < self@.len(),
            j < self@.len(),
        ensures
            x as int == self@[i as int][j as int],
    {
        self.data[i][j]
    }

    /// Compares entry `(i, j)` to `(j, i)` for all `i < j`, stopping at
    /// the first mismatch.
    pub fn is_symmetric(&self) -> (r: bool)
        requires
            self.wf(),
        ensures
            r == symmetric_spec(self@),
    {
        let n = self.n;
        let mut i: usize = 0;
        while i < n
            invariant
                self.wf(),
                n == self.n,
                i <= n,
                forall|p: int, q: int|
                    0 <= p < i && p < q < n ==> #[trigger] self@[p][q] == self@[q][p],
            decreases n - i,
        {
            let mut j: usize = i + 1;
            while j < n
                invariant
                    self.wf(),
                    n == self.n,
                    i < n,
                    i < j <= n,
                    forall|p: int, q: int|
                        0 <= p < i && p < q < n ==> #[trigger] self@[p][q] == self@[q][p],
                    forall|q: int| i < q < j ==> #[trigger] self@[i as int][q] == self@[q][i as int],
                decreases n - j,
            {
                if self.data[i][j] != self.data[j][i] {
                    assert(self@[i as int][j as int] != self@[j as int][i as int]);
                    return false;
                }
                j += 1;
            }
            i += 1;
        }
        assert forall|p: int, q: int|
            0 <= p < n && 0 <= q < n implies #[trigger] self@[p][q] == self@[q][p] by {
            if p < q {
            } else if q < p {
            }
        }
        true
    }

    /// `(A . v) mod m`, each component normalized into `[0, m)`.
    /// Products are accumulated in 128-bit intermediates.
    pub fn multiply_mod(&self, vec: &[i64], modulo: i64) -> (res: Vec<i64>)
        requires
            self.wf(),
            modulo >= 1,
            vec@.len() == self@.len(),
            exists|b: int, c: int|
                #[trigger] mul_bounds_ok(self@, ivec_view(vec@), b, c),
        ensures
            res@.len() == self@.len(),
            forall|i: int|
                0 <= i < self@.len() ==> #[trigger] res@[i] as int == dot_prefix(
                    self@[i],
                    ivec_view(vec@),
                    self@.len() as int,
                ) % (modulo as int),
            forall|i: int| 0 <= i < self@.len() ==> 0 <= #[trigger] res@[i] < modulo,
    {
        let ghost vm = ivec_view(vec@);
        let ghost (b, c) = choose|b: int, c: int| mul_bounds_ok(self@, vm, b, c);
        let n = self.n;
        let mut res: Vec<i64> = Vec::new();
        let mut i: usize = 0;
        while i < n
            invariant
                self.wf(),
                n == self.n,
                i <= n,
                modulo >= 1,
                vec@.len() == n,
                vm == ivec_view(vec@),
                0 <= b,
                0 <= c,
                entries_bounded(self@, b),
                vec_bounded(vm, c),
                n * b * c <= i128::MAX,
                res@.len() == i,
                forall|p: int|
                    0 <= p < i ==> #[trigger] res@[p] as int == dot_prefix(self@[p], vm, n as int)
                        % (modulo as int),
                forall|p: int| 0 <= p < i ==> 0 <= #[trigger] res@[p] < modulo,
            decreases n - i,
        {
            let mut sum: i128 = 0;
            let mut j: usize = 0;
            while j < n
                invariant
                    self.wf(),
                    n == self.n,
                    i < n,
                    j <= n,
                    vec@.len() == n,
                    vm == ivec_view(vec@),
                    0 <= b,
                    0 <= c,
                    entries_bounded(self@, b),
                    vec_bounded(vm, c),
                    n * b * c <= i128::MAX,
                    sum == dot_prefix(self@[i as int], vm, j as int),
                    -(j * b * c) <= sum <= j * b * c,
                decreases n - j,
            {
                let a_ij: i64 = self.data[i][j];
                let v_j: i64 = vec[j];
                proof {
                    assert(self@[i as int][j as int] == a_ij as int);
                    assert(vm[j as int] == v_j as int);
                    assert(-b <= a_ij as int <= b && -c <= v_j as int <= c);
                    assert(-(b * c) <= (a_ij as int) * (v_j as int) <= b * c) by (nonlinear_arith)
                        requires
                            -b <= a_ij as int <= b,
                            -c <= v_j as int <= c,
                            0 <= b,
                            0 <= c,
                    ;
                    assert((j + 1) * b * c <= n * b * c && j * b * c + b * c == (j + 1) * b * c)
                        by (nonlinear_arith)
                        requires
                            j < n,
                            0 <= b,
                            0 <= c,
                    ;
                }
                let prod: i128 = (a_ij as i128) * (v_j as i128);
                sum = sum + prod;
                j += 1;
            }
            proof {
                assert(n * b * c <= i128::MAX);
            }
            let r = emod_i128(sum, modulo as i128);
            res.push(r as i64);
            i += 1;
        }
        res
    }
}

} // verus!
