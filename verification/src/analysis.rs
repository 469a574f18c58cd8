//! The analysis orchestrator: symmetry check, determinant, and -- for a
//! symmetric non-singular matrix -- Smith-Normal-Form reduction and the
//! null-space search modulo the absolute determinant, gated by a hard
//! limit on the estimated candidate count.

use vstd::prelude::*;
use vstd::arithmetic::power::pow;
use vstd::arithmetic::power::lemma_pow_increases;
use vstd::arithmetic::power::lemma_pow_positive;
use crate::arith::{abs_int, min_int};
use crate::determinant::{det_spec, det_fits, det_bound_ok, fact, lemma_fact_pos};
use crate::matrix::{Matrix, symmetric_spec, ivec_view, rows_view};
use crate::search::{SearchReport, search_bounds_ok, null_count, null_cond, null_ext, null_upto};
use crate::snf::{snf_factors, sorted_seq};

verus! {

/// How far the analysis went, and what it produced.
pub enum AnalysisOutcome {
    /// The matrix is not symmetric: no further computation.
    NotSymmetric,
    /// The determinant is zero: the quotient-group model does not
    /// apply, and no reduction or search is attempted.
    Degenerate,
    /// The estimated candidate count `m^n` exceeded the configured
    /// limit: the group structure is reported, the search is not run.
    SearchTooLarge { modulus: i64, invariant_factors: Vec<i64> },
    /// The full analysis: group structure and exhaustive search.
    Analyzed { modulus: i64, invariant_factors: Vec<i64>, search: SearchReport },
}

/// The result of one full analysis run.
pub struct AnalysisReport {
    /// Whether the matrix equals its transpose.
    pub symmetric: bool,
    /// The exact determinant.
    pub determinant: i64,
    /// The stage reached and its products.
    pub outcome: AnalysisOutcome,
}

/// At most `m^k` null vectors extend a prefix with `k` free
/// coordinates.
pub proof fn lemma_null_ext_bound(s: Seq<Seq<int>>, m: int, prefix: Seq<int>)
    requires
        m >= 1,
        prefix.len() <= s.len(),
    ensures
        null_ext(s, m, prefix).len() <= pow(m, (s.len() - prefix.len()) as nat),
    decreases s.len() - prefix.len(), m + 1,
{
    if prefix.len() >= s.len() {
        assert(pow(m, 0) == 1) by {
            reveal(pow);
        }
    } else {
        lemma_null_upto_bound(s, m, prefix, m);
        assert(pow(m, (s.len() - prefix.len()) as nat) == m * pow(
            m,
            (s.len() - prefix.len() - 1) as nat,
        )) by {
            reveal(pow);
        }
    }
}

/// At most `v * m^(k-1)` null vectors pick their next coordinate below
/// `v`.
pub proof fn lemma_null_upto_bound(s: Seq<Seq<int>>, m: int, prefix: Seq<int>, v: int)
    requires
        m >= 1,
        0 <= v <= m,
        prefix.len() < s.len(),
    ensures
        null_upto(s, m, prefix, v).len() <= v * pow(m, (s.len() - prefix.len() - 1) as nat),
    decreases s.len() - prefix.len(), v,
{
    let p = pow(m, (s.len() - prefix.len() - 1) as nat);
    lemma_pow_positive(m, (s.len() - prefix.len() - 1) as nat);
    if v <= 0 {
        assert(null_upto(s, m, prefix, v).len() == 0);
        assert(0 * p == 0) by (nonlinear_arith);
    } else {
        lemma_null_upto_bound(s, m, prefix, v - 1);
        lemma_null_ext_bound(s, m, prefix.push(v - 1));
        assert((v - 1) * p + p == v * p) by (nonlinear_arith);
    }
}

/// A determinant bound certificate also certifies the search products:
/// with `m` within the machine word, `n * b * m` fits the 128-bit
/// accumulator.
pub proof fn lemma_search_bounds_from_det(s: Seq<Seq<int>>, b: int, m: int)
    requires
        1 <= s.len() <= 20,
        det_bound_ok(s, b),
        1 <= m <= i64::MAX,
    ensures
        search_bounds_ok(s, m, b),
{
    let n = s.len() as int;
    lemma_fact_pos(n as nat);
    lemma_pow_positive(b, n as nat);
    if n == 1 {
        assert(pow(b, 1) == b * pow(b, 0) && pow(b, 0) == 1) by {
            reveal_with_fuel(pow, 2);
        }
        assert(fact(1) == 1 * fact(0) && fact(0) == 1);
        assert(b <= 0x7fff_ffff_ffff_ffff) by (nonlinear_arith)
            requires
                fact(s.len()) * pow(b, s.len()) <= 0x7fff_ffff_ffff_ffff,
                fact(s.len()) == 1,
                pow(b, s.len()) == b,
        ;
        assert(1 * b * m <= i128::MAX) by (nonlinear_arith)
            requires
                1 <= b <= 0x7fff_ffff_ffff_ffff,
                1 <= m <= 0x7fff_ffff_ffff_ffff,
        ;
    } else {
        assert(pow(b, 2) == b * (b * pow(b, 0)) && pow(b, 0) == 1) by {
            reveal_with_fuel(pow, 3);
        }
        lemma_pow_increases(b as nat, 2, s.len());
        assert(b * b <= fact(s.len()) * pow(b, s.len())) by (nonlinear_arith)
            requires
                b * b == pow(b, 2),
                pow(b, 2) <= pow(b, s.len()),
                1 <= fact(s.len()),
                pow(b, s.len()) >= 1,
        ;
        assert(b <= 0xb504f334) by (nonlinear_arith)
            requires
                b * b <= 0x7fff_ffff_ffff_ffff,
                1 <= b,
        ;
        assert(n * b * m <= i128::MAX) by (nonlinear_arith)
            requires
                1 <= b <= 0xb504f334,
                1 <= m <= 0x7fff_ffff_ffff_ffff,
                1 <= n <= 20,
        ;
    }
}

/// `m^n`, stopping early once it exceeds `cap`.  `Some` exactly when
/// the power stays within the cap.
fn pow_capped(m: i64, n: usize, cap: u64) -> (r: Option<u64>)
    requires
        m >= 1,
    ensures
        r is Some <==> pow(m as int, n as nat) <= cap,
        r is Some ==> r.unwrap() as int == pow(m as int, n as nat),
{
    proof {
        assert(pow(m as int, 0) == 1) by {
            reveal(pow);
        }
    }
    if cap == 0 {
        proof {
            lemma_pow_positive(m as int, n as nat);
        }
        return None;
    }
    let mut est: u128 = 1;
    let mut i: usize = 0;
    while i < n
        invariant
            m >= 1,
            i <= n,
            est as int == pow(m as int, i as nat),
            est <= cap as u128,
        decreases n - i,
    {
        proof {
            assert(est * (m as u128) < i128::MAX) by (nonlinear_arith)
                requires
                    est <= 0xffff_ffff_ffff_ffff,
                    1 <= m <= 0x7fff_ffff_ffff_ffff,
            ;
            assert(pow(m as int, (i + 1) as nat) == m * pow(m as int, i as nat)) by {
                reveal(pow);
            }
        }
        let ghost est0 = est as int;
        est = est * (m as u128);
        i += 1;
        proof {
            assert(est as int == est0 * (m as int));
            assert(est as int == pow(m as int, i as nat)) by (nonlinear_arith)
                requires
                    est as int == est0 * (m as int),
                    est0 == pow(m as int, (i - 1) as nat),
                    pow(m as int, i as nat) == m * pow(m as int, (i - 1) as nat),
            ;
        }
        if est > cap as u128 {
            proof {
                lemma_pow_increases(m as nat, i as nat, n as nat);
                assert(pow(m as int, i as nat) <= pow(m as int, n as nat));
                assert(pow(m as int, n as nat) > cap);
            }
            return None;
        }
    }
    Some(est as u64)
}

impl Matrix {
    /// Sequences the full analysis: symmetry, determinant, and -- when
    /// the matrix is symmetric with a nonzero determinant -- the
    /// invariant factors and the null-space search modulo `|det|`.
    /// The search only runs when the estimated candidate count `m^n`
    /// stays within `search_limit`; otherwise the report says so.
    pub fn analyze(&self, show_all: bool, display_time_limit_ms: u64, search_limit: u64) -> (r:
        AnalysisReport)
        requires
            self.wf(),
            det_fits(self@),
        ensures
            r.symmetric == symmetric_spec(self@),
            r.determinant as int == det_spec(self@),
            r.outcome is NotSymmetric <==> !symmetric_spec(self@),
            r.outcome is Degenerate <==> symmetric_spec(self@) && det_spec(self@) == 0,
            symmetric_spec(self@) && det_spec(self@) != 0 ==> (match r.outcome {
                AnalysisOutcome::NotSymmetric => false,
                AnalysisOutcome::Degenerate => false,
                AnalysisOutcome::SearchTooLarge { modulus, invariant_factors } => {
                    &&& modulus as int == abs_int(det_spec(self@))
                    &&& pow(modulus as int, self@.len() as nat) > search_limit
                    &&& ivec_view(invariant_factors@) == snf_factors(self@, modulus as int)
                    &&& sorted_seq(invariant_factors@)
                    &&& invariant_factors@.len() <= self@.len()
                    &&& (forall|k: int|
                        0 <= k < invariant_factors@.len() ==> 1 < #[trigger] invariant_factors@[k]
                            <= modulus && (modulus as int) % (invariant_factors@[k] as int) == 0)
                },
                AnalysisOutcome::Analyzed { modulus, invariant_factors, search } => {
                    &&& modulus as int == abs_int(det_spec(self@))
                    &&& pow(modulus as int, self@.len() as nat) <= search_limit
                    &&& ivec_view(invariant_factors@) == snf_factors(self@, modulus as int)
                    &&& sorted_seq(invariant_factors@)
                    &&& invariant_factors@.len() <= self@.len()
                    &&& (forall|k: int|
                        0 <= k < invariant_factors@.len() ==> 1 < #[trigger] invariant_factors@[k]
                            <= modulus && (modulus as int) % (invariant_factors@[k] as int) == 0)
                    &&& search.count == null_count(self@, modulus as int)
                    &&& search.solutions@.len() == min_int(
                        1000,
                        null_count(self@, modulus as int) as int,
                    )
                    &&& (forall|k: int|
                        0 <= k < search.solutions@.len() ==> null_cond(
                            self@,
                            modulus as int,
                            ivec_view(#[trigger] search.solutions@[k]@),
                        ))
                    &&& rows_view(search.solutions@) == null_ext(
                        self@,
                        modulus as int,
                        Seq::empty(),
                    ).take(search.solutions@.len() as int)
                    &&& (!show_all ==> !search.stopped_showing)
                    &&& (show_all && display_time_limit_ms == 0 && search.count > 0
                        ==> search.stopped_showing)
                },
            }),
    {
        let symmetric = self.is_symmetric();
        let det = self.determinant();
        if !symmetric {
            return AnalysisReport {
                symmetric,
                determinant: det,
                outcome: AnalysisOutcome::NotSymmetric,
            };
        }
        if det == 0 {
            return AnalysisReport {
                symmetric,
                determinant: det,
                outcome: AnalysisOutcome::Degenerate,
            };
        }
        let ghost b = choose|b: int| det_bound_ok(self@, b);
        proof {
            crate::determinant::lemma_det_bound(self@, b);
            assert forall|i: int| 0 <= i < self@.len() implies #[trigger] self@[i].len()
                == self@.len() by {
                assert(self@[i].len() == self.data@[i]@.len());
            }
        }
        let modulo = if det < 0 {
            -det
        } else {
            det
        };
        let factors = self.smith_normal_form(modulo);
        match pow_capped(modulo, self.n, search_limit) {
            None => AnalysisReport {
                symmetric,
                determinant: det,
                outcome: AnalysisOutcome::SearchTooLarge {
                    modulus: modulo,
                    invariant_factors: factors,
                },
            },
            Some(_est) => {
                proof {
                    lemma_search_bounds_from_det(self@, b, modulo as int);
                    lemma_null_ext_bound(self@, modulo as int, Seq::empty());
                    lemma_pow_increases(modulo as nat, self@.len() as nat, self@.len() as nat);
                }
                let search = self.find_modular_null_vectors(
                    modulo,
                    show_all,
                    display_time_limit_ms,
                );
                AnalysisReport {
                    symmetric,
                    determinant: det,
                    outcome: AnalysisOutcome::Analyzed {
                        modulus: modulo,
                        invariant_factors: factors,
                        search,
                    },
                }
            },
        }
    }
}

} // verus!
