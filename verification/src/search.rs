//! Exhaustive enumeration of the modular null space: depth-first over
//! `(Z/mZ)^n`, counting every vector `v` with `(A . v) mod m == 0`,
//! retaining the first 1000 matches, and driving the time-boxed live
//! display through a verified decision function.

use vstd::prelude::*;
use crate::arith::{max_int, min_int};
use crate::matrix::{Matrix, ivec_view, rows_view, dot_prefix, entries_bounded, mul_bounds_ok};
use crate::snf::copy_row;
use std::io::Write;

verus! {

/// `v` is a null vector of the grid modulo `m`: right length, every
/// component normalized into `[0, m)`, every row product divisible.
pub open spec fn null_cond(s: Seq<Seq<int>>, m: int, v: Seq<int>) -> bool {
    &&& v.len() == s.len()
    &&& (forall|j: int| 0 <= j < v.len() ==> 0 <= #[trigger] v[j] < m)
    &&& (forall|i: int| 0 <= i < s.len() ==> dot_prefix(#[trigger] s[i], v, s.len() as int) % m
        == 0)
}

/// All null vectors that extend `prefix`, in ascending enumeration
/// order of the remaining coordinates.
pub open spec fn null_ext(s: Seq<Seq<int>>, m: int, prefix: Seq<int>) -> Seq<Seq<int>>
    decreases s.len() - prefix.len(), max_int(m, 0) + 1,
{
    if prefix.len() >= s.len() {
        if null_cond(s, m, prefix) {
            seq![prefix]
        } else {
            Seq::empty()
        }
    } else {
        null_upto(s, m, prefix, m)
    }
}

/// The null vectors whose next coordinate is below `v`.
pub open spec fn null_upto(s: Seq<Seq<int>>, m: int, prefix: Seq<int>, v: int) -> Seq<Seq<int>>
    decreases s.len() - prefix.len(), max_int(v, 0),
{
    if v <= 0 || prefix.len() >= s.len() {
        Seq::empty()
    } else {
        null_upto(s, m, prefix, v - 1) + null_ext(s, m, prefix.push(v - 1))
    }
}

/// The number of null vectors of the whole space.
pub open spec fn null_count(s: Seq<Seq<int>>, m: int) -> nat {
    null_ext(s, m, Seq::empty()).len()
}

/// Bounds under which every candidate product fits the 128-bit
/// accumulator of the modular matrix-vector product.
pub open spec fn search_bounds_ok(s: Seq<Seq<int>>, m: int, b: int) -> bool {
    &&& 0 <= b
    &&& entries_bounded(s, b)
    &&& s.len() * b * m <= i128::MAX
}

/// Fewer next-coordinate choices give at most as many vectors.
proof fn lemma_upto_monotone(s: Seq<Seq<int>>, m: int, prefix: Seq<int>, v1: int, v2: int)
    requires
        v1 <= v2,
    ensures
        null_upto(s, m, prefix, v1).len() <= null_upto(s, m, prefix, v2).len(),
    decreases v2,
{
    if v1 < v2 && v2 > 0 && prefix.len() < s.len() {
        lemma_upto_monotone(s, m, prefix, v1, v2 - 1);
    }
}

/// What the search loop does with one discovered vector while a display
/// budget is in force.
#[derive(Debug, PartialEq, Eq)]
pub enum DisplayAction {
    /// Print the vector: the budget is not yet exhausted.
    Shown,
    /// Print the one-time transition notice and go quiet.
    StoppedNotice,
    /// Stay quiet.
    Hidden,
}

/// The time-boxed reporting policy: vectors are shown while the elapsed
/// time is under the budget; the first match past the budget produces a
/// one-time notice; afterwards the display stays suppressed.  The
/// search itself is never affected.
pub fn display_decision(show_all: bool, elapsed_ms: u64, budget_ms: u64, stopped: bool) -> (r: (
    DisplayAction,
    bool,
))
    ensures
        !show_all ==> r == (DisplayAction::Hidden, stopped),
        show_all && elapsed_ms < budget_ms ==> r == (DisplayAction::Shown, stopped),
        show_all && elapsed_ms >= budget_ms && !stopped ==> r == (
            DisplayAction::StoppedNotice,
            true,
        ),
        show_all && elapsed_ms >= budget_ms && stopped ==> r == (DisplayAction::Hidden, true),
{
    if !show_all {
        (DisplayAction::Hidden, stopped)
    } else if elapsed_ms < budget_ms {
        (DisplayAction::Shown, stopped)
    } else if !stopped {
        (DisplayAction::StoppedNotice, true)
    } else {
        (DisplayAction::Hidden, true)
    }
}

/// The monotonic clock, used only to gate display verbosity.
#[verifier::external_type_specification]
#[verifier::external_body]
pub struct ExInstant(std::time::Instant);

/// Relies on std::time::Instant::now: a monotonic clock sample.
pub assume_specification[ std::time::Instant::now ]() -> std::time::Instant;

/// Relies on std::time::Instant::elapsed: the time since the sample.
pub assume_specification[ std::time::Instant::elapsed ](i: &std::time::Instant)
    -> core::time::Duration;

/// Relies on core::time::Duration::as_millis: the duration in whole
/// milliseconds.
pub assume_specification[ core::time::Duration::as_millis ](d: &core::time::Duration) -> u128;

/// Relies on std::io::stdout to print one discovered vector, numbered.
#[verifier::external_body]
fn emit_match_line(idx: u64, v: &Vec<i64>) {
    let _ = writeln!(std::io::stdout(), "{}. {:?}", idx, v);
}

/// Relies on std::io::stdout to print the one-time notice that the
/// display budget is exhausted.
#[verifier::external_body]
fn emit_budget_notice(secs: u64, tenths: u64) {
    let _ = writeln!(
        std::io::stdout(),
        "\n... ({}.{}s reached, continuing search without display) ...\n",
        secs,
        tenths,
    );
}

/// The outcome of one null-space search.
pub struct SearchReport {
    /// How many vectors of `(Z/mZ)^n` map to zero.
    pub count: u64,
    /// The first matches, capped at 1000.
    pub solutions: Vec<Vec<i64>>,
    /// Whether the live display was suspended past its budget.
    pub stopped_showing: bool,
}

impl Matrix {
    fn search_rec(
        &self,
        m: i64,
        pos: usize,
        v: &mut Vec<i64>,
        count: &mut u64,
        sols: &mut Vec<Vec<i64>>,
        show_all: bool,
        start: &std::time::Instant,
        budget_ms: u64,
        stopped: &mut bool,
    )
        requires
            self.wf(),
            m >= 1,
            pos <= self@.len(),
            old(v)@.len() == self@.len(),
            forall|j: int| 0 <= j < pos ==> 0 <= #[trigger] old(v)@[j] < m,
            exists|b: int| #[trigger] search_bounds_ok(self@, m as int, b),
            *old(count) + null_ext(self@, m as int, ivec_view(old(v)@).take(pos as int)).len()
                <= u64::MAX,
            old(sols)@.len() <= 1000,
        ensures
            final(v)@.len() == old(v)@.len(),
            forall|j: int| 0 <= j < pos ==> #[trigger] final(v)@[j] == old(v)@[j],
            *final(count) == *old(count) + null_ext(
                self@,
                m as int,
                ivec_view(old(v)@).take(pos as int),
            ).len(),
            final(sols)@.len() == min_int(
                1000,
                old(sols)@.len() + null_ext(
                    self@,
                    m as int,
                    ivec_view(old(v)@).take(pos as int),
                ).len() as int,
            ),
            forall|k: int| 0 <= k < old(sols)@.len() ==> #[trigger] final(sols)@[k] == old(sols)@[k],
            forall|k: int|
                old(sols)@.len() <= k < final(sols)@.len() ==> null_cond(
                    self@,
                    m as int,
                    ivec_view(#[trigger] final(sols)@[k]@),
                ),
            rows_view(final(sols)@) == (rows_view(old(sols)@) + null_ext(
                self@,
                m as int,
                ivec_view(old(v)@).take(pos as int),
            )).take(final(sols)@.len() as int),
            *old(stopped) ==> *final(stopped),
            !show_all ==> *final(stopped) == *old(stopped),
            show_all && budget_ms == 0 && *final(count) > *old(count) ==> *final(stopped),
        decreases self@.len() - pos,
    {
        let n = self.n;
        let ghost prefix = ivec_view(old(v)@).take(pos as int);
        if pos == n {
            proof {
                assert(ivec_view(v@).take(pos as int) =~= ivec_view(v@));
                assert(prefix == ivec_view(v@));
            }
            let ghost b = choose|b: int| search_bounds_ok(self@, m as int, b);
            proof {
                assert(mul_bounds_ok(self@, ivec_view(v@), b, m as int)) by (nonlinear_arith)
                    requires
                        search_bounds_ok(self@, m as int, b),
                        forall|j: int| 0 <= j < ivec_view(v@).len() ==> 0 <= #[trigger] ivec_view(
                            v@,
                        )[j] < m,
                        ivec_view(v@).len() == self@.len(),
                        m >= 1,
                ;
            }
            let res = self.multiply_mod(v.as_slice(), m);
            let mut all_zero = true;
            let mut i: usize = 0;
            while i < n
                invariant
                    n == self@.len(),
                    res@.len() == n,
                    i <= n,
                    all_zero == (forall|p: int| 0 <= p < i ==> #[trigger] res@[p] == 0i64),
                decreases n - i,
            {
                if res[i] != 0 {
                    all_zero = false;
                }
                i += 1;
            }
            if all_zero {
                proof {
                    assert forall|p: int| 0 <= p < self@.len() implies dot_prefix(
                        #[trigger] self@[p],
                        ivec_view(v@),
                        self@.len() as int,
                    ) % (m as int) == 0 by {
                        assert(res@[p] == 0i64);
                    }
                    assert(null_cond(self@, m as int, prefix));
                    assert(null_ext(self@, m as int, prefix) =~= seq![prefix]);
                }
                *count = *count + 1;
                if show_all {
                    let d = start.elapsed();
                    let ms128 = d.as_millis();
                    let ms: u64 = #[verifier::truncate] (ms128 as u64);
                    let (action, new_stopped) = display_decision(show_all, ms, budget_ms, *stopped);
                    match action {
                        DisplayAction::Shown => emit_match_line(*count, v),
                        DisplayAction::StoppedNotice => emit_budget_notice(
                            budget_ms / 1000,
                            (budget_ms % 1000) / 100,
                        ),
                        DisplayAction::Hidden => (),
                    }
                    *stopped = new_stopped;
                }
                let ghost sols0 = sols@;
                let ghost target = (rows_view(old(sols)@) + null_ext(self@, m as int, prefix));
                if sols.len() < 1000 {
                    let kept = copy_row(v);
                    sols.push(kept);
                    proof {
                        assert(ivec_view(kept@) == prefix);
                        assert forall|i: int| 0 <= i < sols@.len() implies #[trigger] rows_view(
                            sols@,
                        )[i] == target.take(sols@.len() as int)[i] by {
                            if i < sols0.len() {
                                assert(sols@[i] == sols0[i]);
                                assert(rows_view(sols0)[i] == ivec_view(sols0[i]@));
                            } else {
                                assert(sols@[i] == kept);
                                assert(target[i] == null_ext(self@, m as int, prefix)[0]);
                            }
                        }
                        assert(rows_view(sols@) =~= target.take(sols@.len() as int));
                    }
                } else {
                    proof {
                        assert forall|i: int| 0 <= i < sols@.len() implies #[trigger] rows_view(
                            sols@,
                        )[i] == target.take(sols@.len() as int)[i] by {
                            assert(rows_view(sols@)[i] == ivec_view(sols@[i]@));
                            assert(target[i] == rows_view(old(sols)@)[i]);
                        }
                        assert(rows_view(sols@) =~= target.take(sols@.len() as int));
                    }
                }
            } else {
                proof {
                    let bad = choose|p: int| 0 <= p < n && res@[p] != 0i64;
                    assert(res@[bad] as int == dot_prefix(self@[bad], ivec_view(v@), n as int) % (
                    m as int));
                    assert(!null_cond(self@, m as int, prefix));
                    assert(null_ext(self@, m as int, prefix) =~= Seq::<Seq<int>>::empty());
                    let target = (rows_view(old(sols)@) + null_ext(self@, m as int, prefix));
                    assert forall|i: int| 0 <= i < sols@.len() implies #[trigger] rows_view(
                        sols@,
                    )[i] == target.take(sols@.len() as int)[i] by {
                        assert(target[i] == rows_view(old(sols)@)[i]);
                    }
                    assert(rows_view(sols@) =~= target.take(sols@.len() as int));
                }
            }
            return ;
        }
        let mut val: i64 = 0;
        proof {
            let a = rows_view(old(sols)@);
            assert(null_upto(self@, m as int, prefix, 0).len() == 0);
            assert forall|i: int| 0 <= i < sols@.len() implies #[trigger] rows_view(sols@)[i] == (a
                + null_upto(self@, m as int, prefix, 0)).take(sols@.len() as int)[i] by {
                assert(rows_view(sols@)[i] == a[i]);
            }
            assert(rows_view(sols@) =~= (a + null_upto(self@, m as int, prefix, 0)).take(
                sols@.len() as int,
            ));
        }
        while val < m
            invariant
                self.wf(),
                n == self.n,
                m >= 1,
                pos < n,
                v@.len() == n,
                old(v)@.len() == n,
                0 <= val <= m,
                forall|j: int| 0 <= j < pos ==> #[trigger] v@[j] == old(v)@[j],
                forall|j: int| 0 <= j < pos ==> 0 <= #[trigger] v@[j] < m,
                prefix == ivec_view(old(v)@).take(pos as int),
                exists|b: int| #[trigger] search_bounds_ok(self@, m as int, b),
                *old(count) + null_ext(self@, m as int, prefix).len() <= u64::MAX,
                *count == *old(count) + null_upto(self@, m as int, prefix, val as int).len(),
                sols@.len() == min_int(
                    1000,
                    old(sols)@.len() + null_upto(self@, m as int, prefix, val as int).len() as int,
                ),
                rows_view(sols@) == (rows_view(old(sols)@) + null_upto(
                    self@,
                    m as int,
                    prefix,
                    val as int,
                )).take(sols@.len() as int),
                forall|k: int| 0 <= k < old(sols)@.len() ==> #[trigger] sols@[k] == old(sols)@[k],
                forall|k: int|
                    old(sols)@.len() <= k < sols@.len() ==> null_cond(
                        self@,
                        m as int,
                        ivec_view(#[trigger] sols@[k]@),
                    ),
                old(sols)@.len() <= 1000,
                *old(stopped) ==> *stopped,
                !show_all ==> *stopped == *old(stopped),
                show_all && budget_ms == 0 && *count > *old(count) ==> *stopped,
            decreases m - val,
        {
            proof {
                assert(prefix.len() == pos as int);
                assert(self@.len() == n);
                lemma_upto_monotone(self@, m as int, prefix, val + 1, m as int);
                assert(null_upto(self@, m as int, prefix, val + 1) == null_upto(
                    self@,
                    m as int,
                    prefix,
                    val as int,
                ) + null_ext(self@, m as int, prefix.push(val as int)));
                assert(null_ext(self@, m as int, prefix) == null_upto(
                    self@,
                    m as int,
                    prefix,
                    m as int,
                ));
            }
            v[pos] = val;
            proof {
                assert forall|j: int| 0 <= j < pos + 1 implies ivec_view(v@).take(pos + 1)[j]
                    == prefix.push(val as int)[j] by {
                    if j < pos {
                        assert(v@[j] == old(v)@[j]);
                        assert(prefix[j] == ivec_view(old(v)@)[j]);
                    } else {
                        assert(v@[j] == val);
                    }
                }
                assert(ivec_view(v@).take(pos + 1) =~= prefix.push(val as int));
            }
            let ghost mid = sols@;
            self.search_rec(m, pos + 1, v, count, sols, show_all, start, budget_ms, stopped);
            proof {
                let a = rows_view(old(sols)@);
                let u = null_upto(self@, m as int, prefix, val as int);
                let e = null_ext(self@, m as int, prefix.push(val as int));
                assert(rows_view(mid) == (a + u).take(mid.len() as int));
                assert(rows_view(sols@) == (rows_view(mid) + e).take(sols@.len() as int));
                assert forall|i: int| 0 <= i < sols@.len() implies #[trigger] rows_view(sols@)[i]
                    == (a + (u + e)).take(sols@.len() as int)[i] by {
                    if i < mid.len() {
                        assert(rows_view(sols@)[i] == rows_view(mid)[i]);
                        assert(rows_view(mid)[i] == (a + u)[i]);
                    } else {
                        assert(mid.len() == a.len() + u.len());
                        assert(rows_view(sols@)[i] == e[i - mid.len()]);
                        assert((a + (u + e))[i] == (u + e)[i - a.len()]);
                    }
                }
                assert(rows_view(sols@) =~= (a + (u + e)).take(sols@.len() as int));
            }
            val = val + 1;
        }
        proof {
            assert(null_ext(self@, m as int, prefix) == null_upto(self@, m as int, prefix, m as int));
        }
    }

    /// Counts every vector `v` in `(Z/mZ)^n` with `(A . v) mod m == 0`,
    /// keeping the first 1000 of them; while under the display budget
    /// each match is printed live, and the first match past the budget
    /// prints a one-time notice.  The search always runs to exhaustion.
    pub fn find_modular_null_vectors(&self, modulo: i64, show_all: bool, display_time_limit_ms: u64)
        -> (r: SearchReport)
        requires
            self.wf(),
            modulo >= 1,
            exists|b: int| #[trigger] search_bounds_ok(self@, modulo as int, b),
            null_count(self@, modulo as int) <= u64::MAX,
        ensures
            r.count == null_count(self@, modulo as int),
            r.solutions@.len() == min_int(1000, null_count(self@, modulo as int) as int),
            forall|k: int|
                0 <= k < r.solutions@.len() ==> null_cond(
                    self@,
                    modulo as int,
                    ivec_view(#[trigger] r.solutions@[k]@),
                ),
            rows_view(r.solutions@) == null_ext(self@, modulo as int, Seq::empty()).take(
                r.solutions@.len() as int,
            ),
            !show_all ==> !r.stopped_showing,
            show_all && display_time_limit_ms == 0 && r.count > 0 ==> r.stopped_showing,
    {
        let n = self.n;
        let start = std::time::Instant::now();
        let mut v: Vec<i64> = Vec::new();
        let mut i: usize = 0;
        while i < n
            invariant
                i <= n,
                v@.len() == i,
            decreases n - i,
        {
            v.push(0);
            i += 1;
        }
        let mut count: u64 = 0;
        let mut sols: Vec<Vec<i64>> = Vec::new();
        let mut stopped = false;
        proof {
            assert(ivec_view(v@).take(0) =~= Seq::<int>::empty());
        }
        self.search_rec(modulo, 0, &mut v, &mut count, &mut sols, show_all, &start,
            display_time_limit_ms, &mut stopped);
        proof {
            let e = null_ext(self@, modulo as int, Seq::empty());
            assert(rows_view(Seq::<Vec<i64>>::empty()) + e =~= e);
        }
        SearchReport { count, solutions: sols, stopped_showing: stopped }
    }
}

} // verus!
