//! Exact integer determinant: the specification is cofactor expansion
//! along the first row, and the executable computation follows it with
//! machine integers, so the two agree on every admitted matrix.

use vstd::prelude::*;
use vstd::arithmetic::power::pow;
use vstd::arithmetic::power::lemma_pow_positive;
use crate::arith::abs_int;
use crate::matrix::{Matrix, entries_bounded, rows_view, ivec_view};

verus! {

/// `n!`.
pub open spec fn fact(n: nat) -> nat
    decreases n,
{
    if n == 0 {
        1
    } else {
        n * fact((n - 1) as nat)
    }
}

/// The grid without row `0` and column `col`.
pub open spec fn minor(s: Seq<Seq<int>>, col: int) -> Seq<Seq<int>> {
    s.subrange(1, s.len() as int).map_values(|row: Seq<int>| row.remove(col))
}

/// A square grid of any size (the empty grid included).
pub open spec fn grid_square(s: Seq<Seq<int>>) -> bool {
    forall|i: int| 0 <= i < s.len() ==> #[trigger] s[i].len() == s.len()
}

/// Determinant by cofactor expansion along the first row; the empty
/// grid has determinant 1.
pub open spec fn det_spec(s: Seq<Seq<int>>) -> int
    decreases s.len(), s.len() as int + 1,
{
    if s.len() == 0 {
        1
    } else {
        det_cof(s, s.len() as int)
    }
}

/// Partial cofactor sum over columns `0 .. j`.
pub open spec fn det_cof(s: Seq<Seq<int>>, j: int) -> int
    decreases s.len(), j,
{
    if j <= 0 || s.len() == 0 {
        0
    } else {
        det_cof(s, j - 1) + (if (j - 1) % 2 == 0 {
            1int
        } else {
            -1int
        }) * s[0][j - 1] * det_spec(minor(s, j - 1))
    }
}

/// A bound certificate: entries within `[-b, b]` and `n! * b^n` within
/// the machine word.
pub open spec fn det_bound_ok(s: Seq<Seq<int>>, b: int) -> bool {
    &&& 1 <= b
    &&& entries_bounded(s, b)
    &&& fact(s.len()) * pow(b, s.len()) <= i64::MAX
}

/// Some bound certificate exists, so the exact determinant can be
/// computed in 64-bit arithmetic.
pub open spec fn det_fits(s: Seq<Seq<int>>) -> bool {
    exists|b: int| #[trigger] det_bound_ok(s, b)
}

/// Shape of a minor: one size smaller, still square, with the expected
/// entries.
pub proof fn lemma_minor_shape(s: Seq<Seq<int>>, col: int)
    requires
        s.len() >= 1,
        grid_square(s),
        0 <= col < s.len(),
    ensures
        minor(s, col).len() == s.len() - 1,
        grid_square(minor(s, col)),
        forall|i: int, j: int|
            0 <= i < s.len() - 1 && 0 <= j < col ==> #[trigger] minor(s, col)[i][j] == s[i + 1][j],
        forall|i: int, j: int|
            col <= j < s.len() - 1 && 0 <= i < s.len() - 1 ==> #[trigger] minor(s, col)[i][j]
                == s[i + 1][j + 1],
{
    let m = minor(s, col);
    assert(m.len() == s.len() - 1);
    assert forall|i: int| 0 <= i < m.len() implies #[trigger] m[i].len() == m.len() by {
        assert(m[i] == s[i + 1].remove(col));
        s[i + 1].remove_ensures(col);
    }
    assert forall|i: int, j: int|
        0 <= i < s.len() - 1 && 0 <= j < col implies #[trigger] m[i][j] == s[i + 1][j] by {
        assert(m[i] == s[i + 1].remove(col));
        s[i + 1].remove_ensures(col);
    }
    assert forall|i: int, j: int|
        col <= j < s.len() - 1 && 0 <= i < s.len() - 1 implies #[trigger] m[i][j] == s[i + 1][j
        + 1] by {
        assert(m[i] == s[i + 1].remove(col));
        s[i + 1].remove_ensures(col);
    }
}

/// A minor keeps any entry bound of the full grid.
pub proof fn lemma_minor_bounded(s: Seq<Seq<int>>, col: int, b: int)
    requires
        s.len() >= 1,
        grid_square(s),
        0 <= col < s.len(),
        entries_bounded(s, b),
    ensures
        entries_bounded(minor(s, col), b),
{
    lemma_minor_shape(s, col);
    let m = minor(s, col);
    assert forall|i: int, j: int|
        0 <= i < m.len() && 0 <= j < m[i].len() implies -b <= #[trigger] m[i][j] <= b by {
        if j < col {
            assert(m[i][j] == s[i + 1][j]);
        } else {
            assert(m[i][j] == s[i + 1][j + 1]);
        }
    }
}

/// `n!` is positive.
pub proof fn lemma_fact_pos(n: nat)
    ensures
        fact(n) >= 1,
    decreases n,
{
    if n > 0 {
        lemma_fact_pos((n - 1) as nat);
        assert(n * fact((n - 1) as nat) >= 1) by (nonlinear_arith)
            requires
                n >= 1,
                fact((n - 1) as nat) >= 1,
        ;
    }
}

/// The determinant of a square grid bounded by `b` is bounded by
/// `n! * b^n`.
pub proof fn lemma_det_bound(s: Seq<Seq<int>>, b: int)
    requires
        grid_square(s),
        1 <= b,
        entries_bounded(s, b),
    ensures
        abs_int(det_spec(s)) <= fact(s.len()) * pow(b, s.len()),
    decreases s.len(), s.len() as int + 1,
{
    let n = s.len() as int;
    if s.len() == 0 {
        assert(det_spec(s) == 1);
        assert(pow(b, 0) == 1) by {
            reveal(pow);
        }
    } else {
        lemma_det_cof_bound(s, b, n);
        lemma_pow_positive(b, (n - 1) as nat);
        assert(pow(b, n as nat) == b * pow(b, (n - 1) as nat)) by {
            reveal(pow);
        }
        assert(n * (b * (fact((n - 1) as nat) * pow(b, (n - 1) as nat))) == fact(n as nat) * pow(
            b,
            n as nat,
        )) by (nonlinear_arith)
            requires
                n >= 1,
                fact(n as nat) == n * fact((n - 1) as nat),
                pow(b, n as nat) == b * pow(b, (n - 1) as nat),
        ;
    }
}

/// Each partial cofactor sum is bounded by `j` terms of size
/// `b * (n-1)! * b^(n-1)`.
pub proof fn lemma_det_cof_bound(s: Seq<Seq<int>>, b: int, j: int)
    requires
        grid_square(s),
        s.len() >= 1,
        1 <= b,
        entries_bounded(s, b),
        0 <= j <= s.len(),
    ensures
        abs_int(det_cof(s, j)) <= j * (b * (fact((s.len() - 1) as nat) * pow(
            b,
            (s.len() - 1) as nat,
        ))),
    decreases s.len(), j,
{
    let n = s.len() as int;
    let unit = b * (fact((n - 1) as nat) * pow(b, (n - 1) as nat));
    if j <= 0 {
        assert(abs_int(det_cof(s, 0)) == 0);
        assert(0 * unit == 0) by (nonlinear_arith);
    } else {
        lemma_det_cof_bound(s, b, j - 1);
        lemma_minor_shape(s, j - 1);
        lemma_minor_bounded(s, j - 1, b);
        let m = minor(s, j - 1);
        lemma_det_bound(m, b);
        lemma_pow_positive(b, (n - 1) as nat);
        lemma_fact_pos((n - 1) as nat);
        let sign: int = if (j - 1) % 2 == 0 {
            1int
        } else {
            -1int
        };
        assert(det_cof(s, j) == det_cof(s, j - 1) + sign * s[0][j - 1] * det_spec(m));
        assert(abs_int(det_cof(s, j)) <= j * unit) by (nonlinear_arith)
            requires
                abs_int(det_cof(s, j - 1)) <= (j - 1) * unit,
                abs_int(det_spec(m)) <= fact((n - 1) as nat) * pow(b, (n - 1) as nat),
                -b <= s[0][j - 1] <= b,
                1 <= b,
                sign == 1 || sign == -1int,
                det_cof(s, j) == det_cof(s, j - 1) + sign * s[0][j - 1] * det_spec(m),
                unit == b * (fact((n - 1) as nat) * pow(b, (n - 1) as nat)),
                fact((n - 1) as nat) >= 1,
                pow(b, (n - 1) as nat) > 0,
        ;
    }
}

/// A smaller square grid fits whenever the full one does.
proof fn lemma_minor_fits(s: Seq<Seq<int>>, col: int, b: int)
    requires
        s.len() >= 1,
        grid_square(s),
        0 <= col < s.len(),
        det_bound_ok(s, b),
    ensures
        det_bound_ok(minor(s, col), b),
        fact((s.len() - 1) as nat) * pow(b, (s.len() - 1) as nat) <= i64::MAX,
{
    let n = s.len() as int;
    lemma_minor_shape(s, col);
    lemma_minor_bounded(s, col, b);
    lemma_pow_positive(b, (n - 1) as nat);
    lemma_fact_pos((n - 1) as nat);
    assert(pow(b, n as nat) == b * pow(b, (n - 1) as nat)) by {
        reveal(pow);
    }
    assert(fact((n - 1) as nat) * pow(b, (n - 1) as nat) <= fact(n as nat) * pow(b, n as nat))
        by (nonlinear_arith)
        requires
            n >= 1,
            1 <= b,
            fact(n as nat) == n * fact((n - 1) as nat),
            pow(b, n as nat) == b * pow(b, (n - 1) as nat),
            pow(b, (n - 1) as nat) > 0,
            fact((n - 1) as nat) >= 1,
    ;
}

/// The executable minor: drops row `0` and column `col`.
fn minor_grid(g: &Vec<Vec<i64>>, col: usize) -> (m: Vec<Vec<i64>>)
    requires
        g@.len() >= 1,
        grid_square(rows_view(g@)),
        col < g@.len(),
    ensures
        rows_view(m@) == minor(rows_view(g@), col as int),
{
    let n = g.len();
    let ghost s = rows_view(g@);
    let mut m: Vec<Vec<i64>> = Vec::new();
    let mut r: usize = 1;
    while r < n
        invariant
            1 <= r <= n,
            n == g@.len(),
            s == rows_view(g@),
            grid_square(s),
            col < n,
            m@.len() == r - 1,
            forall|p: int|
                0 <= p < r - 1 ==> #[trigger] rows_view(m@)[p] == s[p + 1].remove(col as int),
        decreases n - r,
    {
        let mut row: Vec<i64> = Vec::new();
        let mut c: usize = 0;
        proof {
            assert(s[r as int].len() == n);
        }
        while c < n
            invariant
                c <= n,
                n == g@.len(),
                s == rows_view(g@),
                grid_square(s),
                col < n,
                1 <= r < n,
                s[r as int].len() == n,
                row@.len() == (if c <= col {
                    c as int
                } else {
                    c - 1
                }),
                forall|q: int|
                    0 <= q < row@.len() && q < col ==> #[trigger] ivec_view(row@)[q] == s[r as int][q],
                forall|q: int|
                    col <= q < row@.len() ==> #[trigger] ivec_view(row@)[q] == s[r as int][q + 1],
            decreases n - c,
        {
            if c != col {
                proof {
                    assert(g@[r as int]@.len() == n);
                }
                let x = g[r][c];
                assert(s[r as int][c as int] == x as int);
                let ghost row0 = row@;
                row.push(x);
                proof {
                    assert forall|q: int| 0 <= q < row@.len() && q < col implies #[trigger] ivec_view(
                        row@,
                    )[q] == s[r as int][q] by {
                        if q < row0.len() {
                            assert(ivec_view(row0)[q] == s[r as int][q]);
                            assert(row@[q] == row0[q]);
                        } else {
                            assert(row@[q] == x);
                        }
                    }
                    assert forall|q: int| col <= q < row@.len() implies #[trigger] ivec_view(row@)[q]
                        == s[r as int][q + 1] by {
                        if q < row0.len() {
                            assert(ivec_view(row0)[q] == s[r as int][q + 1]);
                            assert(row@[q] == row0[q]);
                        } else {
                            assert(row@[q] == x);
                        }
                    }
                }
            }
            c += 1;
        }
        proof {
            s[r as int].remove_ensures(col as int);
            assert(ivec_view(row@) =~= s[r as int].remove(col as int));
        }
        let ghost m0 = m@;
        m.push(row);
        proof {
            assert forall|p: int| 0 <= p < m@.len() implies #[trigger] rows_view(m@)[p] == s[p
                + 1].remove(col as int) by {
                if p < m0.len() {
                    assert(rows_view(m0)[p] == s[p + 1].remove(col as int));
                    assert(m@[p] == m0[p]);
                    assert(rows_view(m@)[p] == ivec_view(m@[p]@));
                    assert(rows_view(m0)[p] == ivec_view(m0[p]@));
                } else {
                    assert(rows_view(m@)[p] == ivec_view(row@));
                }
            }
        }
        r += 1;
    }
    proof {
        lemma_minor_shape(s, col as int);
        assert(rows_view(m@) =~= minor(s, col as int));
    }
    m
}

/// Determinant of a square grid by recursive cofactor expansion.
fn det_of_grid(g: &Vec<Vec<i64>>) -> (d: i64)
    requires
        g@.len() >= 1,
        grid_square(rows_view(g@)),
        det_fits(rows_view(g@)),
    ensures
        d as int == det_spec(rows_view(g@)),
    decreases g@.len(),
{
    let ghost s = rows_view(g@);
    let ghost b = choose|b: int| det_bound_ok(s, b);
    let n = g.len();
    if n == 1 {
        proof {
            assert(s[0].len() == 1);
            assert(g@[0]@.len() == 1);
        }
        let d = g[0][0];
        proof {
            reveal_with_fuel(det_spec, 2);
            reveal_with_fuel(det_cof, 2);
            assert(minor(s, 0).len() == 0);
            assert(det_spec(minor(s, 0)) == 1);
            assert(det_cof(s, 1) == 0 + 1 * s[0][0] * 1);
        }
        return d;
    }
    let mut acc: i64 = 0;
    let mut c: usize = 0;
    let ghost unit = b * (fact((n - 1) as nat) * pow(b, (n - 1) as nat));
    proof {
        lemma_fact_pos((n - 1) as nat);
        lemma_pow_positive(b, (n - 1) as nat);
        assert(pow(b, n as nat) == b * pow(b, (n - 1) as nat)) by {
            reveal(pow);
        }
        assert(unit >= 1) by (nonlinear_arith)
            requires
                unit == b * (fact((n - 1) as nat) * pow(b, (n - 1) as nat)),
                b >= 1,
                fact((n - 1) as nat) >= 1,
                pow(b, (n - 1) as nat) >= 1,
        ;
        assert(n * unit == fact(n as nat) * pow(b, n as nat)) by (nonlinear_arith)
            requires
                n >= 1,
                unit == b * (fact((n - 1) as nat) * pow(b, (n - 1) as nat)),
                fact(n as nat) == n * fact((n - 1) as nat),
                pow(b, n as nat) == b * pow(b, (n - 1) as nat),
        ;
    }
    while c < n
        invariant
            n == g@.len(),
            2 <= n,
            s == rows_view(g@),
            grid_square(s),
            det_bound_ok(s, b),
            c <= n,
            acc as int == det_cof(s, c as int),
            unit == b * (fact((n - 1) as nat) * pow(b, (n - 1) as nat)),
            abs_int(acc as int) <= c * unit,
            unit >= 1,
            n * unit == fact(n as nat) * pow(b, n as nat),
        decreases n - c,
    {
        let mg = minor_grid(g, c);
        proof {
            lemma_minor_fits(s, c as int, b);
            assert(minor(s, c as int).len() == n - 1);
            assert(rows_view(mg@).len() == mg@.len());
        }
        let dm = det_of_grid(&mg);
        proof {
            assert(s[0].len() == n);
            assert(g@[0]@.len() == n);
        }
        let a0c = g[0][c];
        proof {
            lemma_minor_bounded(s, c as int, b);
            lemma_det_bound(minor(s, c as int), b);
            assert(s[0][c as int] == a0c as int);
            assert(abs_int((a0c as int) * (dm as int)) <= unit) by (nonlinear_arith)
                requires
                    -b <= a0c as int <= b,
                    abs_int(dm as int) <= fact((n - 1) as nat) * pow(b, (n - 1) as nat),
                    unit == b * (fact((n - 1) as nat) * pow(b, (n - 1) as nat)),
                    b >= 1,
                    fact((n - 1) as nat) * pow(b, (n - 1) as nat) >= 0,
            ;
            assert(c * unit + unit == (c + 1) * unit && (c + 1) * unit <= n * unit)
                by (nonlinear_arith)
                requires
                    c < n,
                    unit >= 1,
            ;
        }
        let prod: i64 = a0c * dm;
        let term: i64 = if c % 2 == 0 {
            prod
        } else {
            -prod
        };
        proof {
            let sign: int = if (c as int) % 2 == 0 {
                1int
            } else {
                -1int
            };
            assert(term as int == sign * s[0][c as int] * det_spec(minor(s, c as int)))
                by (nonlinear_arith)
                requires
                    prod as int == (a0c as int) * (dm as int),
                    s[0][c as int] == a0c as int,
                    dm as int == det_spec(minor(s, c as int)),
                    term as int == (if sign == 1 {
                        prod as int
                    } else {
                        -(prod as int)
                    }),
                    sign == 1 || sign == -1int,
            ;
            assert(det_cof(s, c + 1) == det_cof(s, c as int) + sign * s[0][c as int] * det_spec(
                minor(s, c as int),
            ));
        }
        acc = acc + term;
        c += 1;
    }
    acc
}

impl Matrix {
    /// The exact determinant, by cofactor expansion.  `n = 1` returns
    /// the sole entry; larger sizes expand along the first row.
    pub fn determinant(&self) -> (d: i64)
        requires
            self.wf(),
            det_fits(self@),
        ensures
            d as int == det_spec(self@),
    {
        proof {
            assert forall|i: int| 0 <= i < self@.len() implies #[trigger] self@[i].len()
                == self@.len() by {
                assert(self@[i].len() == self.data@[i]@.len());
            }
        }
        det_of_grid(&self.data)
    }
}

} // verus!
