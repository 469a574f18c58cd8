//! Euclidean arithmetic: greatest common divisors and the extended
//! Euclidean algorithm that drives the Smith-Normal-Form reduction.

use vstd::prelude::*;
use vstd::arithmetic::div_mod::*;

verus! {

/// Absolute value of a mathematical integer.
pub open spec fn abs_int(x: int) -> int {
    if x < 0 {
        -x
    } else {
        x
    }
}

/// The larger of two mathematical integers.
pub open spec fn max_int(a: int, b: int) -> int {
    if a >= b {
        a
    } else {
        b
    }
}

/// The smaller of two mathematical integers.
pub open spec fn min_int(a: int, b: int) -> int {
    if a <= b {
        a
    } else {
        b
    }
}

/// Greatest common divisor of two naturals by the Euclidean algorithm.
/// `gcd_nat(a, 0) == a`, hence `gcd_nat(0, 0) == 0`.
pub open spec fn gcd_nat(a: nat, b: nat) -> nat
    decreases b,
{
    if b == 0 {
        a
    } else {
        gcd_nat(b, a % b)
    }
}

/// The gcd of `a` and `b` divides both, and is positive and at most `b`
/// as soon as `b` is positive.
pub proof fn lemma_gcd_divides(a: nat, b: nat)
    ensures
        gcd_nat(a, b) > 0 ==> a % gcd_nat(a, b) == 0 && b % gcd_nat(a, b) == 0,
        a > 0 || b > 0 ==> gcd_nat(a, b) > 0,
        b > 0 ==> gcd_nat(a, b) <= b,
    decreases b,
{
    let g = gcd_nat(a, b);
    if b == 0 {
        if a > 0 {
            lemma_mod_self_0(a as int);
            lemma_small_mod(0, a);
        }
    } else {
        lemma_gcd_divides(b, a % b);
        assert(g == gcd_nat(b, a % b));
        assert(g > 0);
        assert(b % g == 0);
        assert((a % b) % g == 0);
        // b and a % b are multiples of g, so a == (a / b) * b + a % b is too.
        let k = b as int / g as int;
        lemma_fundamental_div_mod(b as int, g as int);
        let j = (a % b) as int / g as int;
        lemma_fundamental_div_mod((a % b) as int, g as int);
        let q = a as int / b as int;
        lemma_fundamental_div_mod(a as int, b as int);
        assert(a as int == (q * k + j) * g) by (nonlinear_arith)
            requires
                b as int == g as int * k + 0,
                (a % b) as int == g as int * j + 0,
                a as int == b as int * q + (a % b) as int,
        ;
        lemma_mod_multiples_basic(q * k + j, g as int);
        assert(a % g == 0);
        // g divides the positive b, so g <= b.
        if g > b {
            lemma_small_mod(b, g);
        }
    }
}

/// Truncating (machine) division: the quotient of the absolute values,
/// negated when the signs differ.
pub open spec fn tdiv_int(a: int, b: int) -> int {
    if (a < 0) != (b < 0) {
        -(abs_int(a) / abs_int(b))
    } else {
        abs_int(a) / abs_int(b)
    }
}

/// Truncating (machine) remainder: the remainder of the absolute
/// values, carrying the sign of the dividend.
pub open spec fn tmod_int(a: int, b: int) -> int {
    if a < 0 {
        -(abs_int(a) % abs_int(b))
    } else {
        abs_int(a) % abs_int(b)
    }
}

/// The extended Euclidean recursion, exactly as the executable
/// `extended_gcd` computes it (truncating division throughout).
pub open spec fn egcd_spec(a: int, b: int) -> (int, int, int)
    decreases abs_int(b),
{
    if b == 0 {
        (a, 1int, 0int)
    } else {
        let q = tdiv_int(a, b);
        let r = tmod_int(a, b);
        let sub = egcd_spec(b, r);
        (sub.0, sub.2, sub.1 - q * sub.2)
    }
}

/// Truncating division and remainder on `i64`, as the machine performs
/// them, stated exactly over the absolute values.
fn trunc_divmod(a: i64, b: i64) -> (res: (i64, i64))
    requires
        a != i64::MIN,
        b != i64::MIN,
        b != 0,
    ensures
        a as int == res.0 * b + res.1,
        abs_int(res.1 as int) == abs_int(a as int) % abs_int(b as int),
        abs_int(res.0 as int) == abs_int(a as int) / abs_int(b as int),
        abs_int(res.0 as int) * abs_int(b as int) + abs_int(res.1 as int) == abs_int(a as int),
        a >= 0 ==> res.1 >= 0,
        res.0 == tdiv_int(a as int, b as int),
        res.1 == tmod_int(a as int, b as int),
{
    let am: i64 = if a < 0 {
        -a
    } else {
        a
    };
    let bm: i64 = if b < 0 {
        -b
    } else {
        b
    };
    let qm: i64 = am / bm;
    let rm: i64 = am % bm;
    proof {
        lemma_fundamental_div_mod(am as int, bm as int);
        lemma_mod_division_less_than_divisor(am as int, bm as int);
        lemma_div_pos_is_pos(am as int, bm as int);
        assert(qm * bm + rm == am) by (nonlinear_arith)
            requires
                am as int == bm as int * qm + rm,
        ;
    }
    let q: i64 = if (a < 0) != (b < 0) {
        -qm
    } else {
        qm
    };
    let r: i64 = if a < 0 {
        -rm
    } else {
        rm
    };
    proof {
        assert(a as int == q * b + r && abs_int(q as int) * abs_int(b as int) + abs_int(r as int)
            == abs_int(a as int)) by (nonlinear_arith)
            requires
                qm * bm + rm == am,
                qm >= 0,
                rm >= 0,
                am as int == abs_int(a as int),
                bm as int == abs_int(b as int),
                abs_int(q as int) == qm as int,
                abs_int(r as int) == rm as int,
                q as int == (if (a < 0) != (b < 0) {
                    -(qm as int)
                } else {
                    qm as int
                }),
                r as int == (if a < 0 {
                    -(rm as int)
                } else {
                    rm as int
                }),
                abs_int(a as int) == (if a < 0 {
                    -(a as int)
                } else {
                    a as int
                }),
                abs_int(b as int) == (if b < 0 {
                    -(b as int)
                } else {
                    b as int
                }),
        ;
    }
    (q, r)
}

/// Euclid's algorithm on the absolute values of the two arguments.
/// The result is non-negative, and `gcd(0, 0) == 0`.
pub fn gcd(a: i64, b: i64) -> (r: i64)
    requires
        a != i64::MIN,
        b != i64::MIN,
    ensures
        r == gcd_nat(abs_int(a as int) as nat, abs_int(b as int) as nat),
        r >= 0,
{
    let mut x: i64 = if a < 0 {
        -a
    } else {
        a
    };
    let mut y: i64 = if b < 0 {
        -b
    } else {
        b
    };
    while y != 0
        invariant
            x >= 0,
            y >= 0,
            gcd_nat(x as nat, y as nat) == gcd_nat(
                abs_int(a as int) as nat,
                abs_int(b as int) as nat,
            ),
        decreases y,
    {
        let temp = y;
        let rem = x % y;
        proof {
            lemma_mod_division_less_than_divisor(x as int, y as int);
        }
        y = rem;
        x = temp;
    }
    x
}

/// Extended Euclidean algorithm: returns `(g, x, y)` with
/// `a * x + b * y == g` and `|g| == gcd(|a|, |b|)`.  The coefficient
/// bounds `|x| <= max(1, |b|)` and `|y| <= max(1, |a|)` keep every
/// intermediate product within the machine word.
pub fn extended_gcd(a: i64, b: i64) -> (res: (i64, i64, i64))
    requires
        a != i64::MIN,
        b != i64::MIN,
    ensures
        a * res.1 + b * res.2 == res.0,
        abs_int(res.0 as int) == gcd_nat(abs_int(a as int) as nat, abs_int(b as int) as nat),
        a >= 0 && b >= 0 ==> res.0 >= 0,
        abs_int(res.1 as int) <= max_int(1, abs_int(b as int)),
        abs_int(res.2 as int) <= max_int(1, abs_int(a as int)),
        b == 0 ==> res == (a, 1i64, 0i64),
        (res.0 as int, res.1 as int, res.2 as int) == egcd_spec(a as int, b as int),
    decreases abs_int(b as int),
{
    if b == 0 {
        assert(a * 1 + b * 0 == a) by (nonlinear_arith);
        return (a, 1, 0);
    }
    let (q, r) = trunc_divmod(a, b);
    proof {
        lemma_mod_division_less_than_divisor(abs_int(a as int), abs_int(b as int));
    }
    let (g, x1, y1) = extended_gcd(b, r);
    proof {
        // |q * y1| <= |a| - |r|, so the product and the difference fit.
        assert(abs_int(q as int * y1 as int) <= abs_int(a as int) - abs_int(r as int))
            by (nonlinear_arith)
            requires
                abs_int(y1 as int) <= max_int(1, abs_int(b as int)),
                abs_int(b as int) >= 1,
                abs_int(q as int) * abs_int(b as int) + abs_int(r as int) == abs_int(a as int),
                r == 0 ==> y1 == 0,
                abs_int(r as int) >= 0,
                abs_int(q as int) >= 0,
        ;
    }
    let prod: i64 = q * y1;
    proof {
        if r == 0 {
            assert(x1 == 1 && y1 == 0);
            assert(prod == 0) by (nonlinear_arith)
                requires
                    prod == q * y1,
                    y1 == 0,
            ;
        }
        assert(abs_int((x1 - prod) as int) <= max_int(1, abs_int(a as int))) by (nonlinear_arith)
            requires
                abs_int(prod as int) <= abs_int(a as int) - abs_int(r as int),
                abs_int(x1 as int) <= max_int(1, abs_int(r as int)),
                r == 0 ==> x1 == 1 && prod == 0,
        ;
    }
    let y: i64 = x1 - prod;
    proof {
        assert(a * y1 + b * y == g) by (nonlinear_arith)
            requires
                b * x1 + r * y1 == g,
                a as int == q * b + r,
                y as int == x1 - q * y1,
        ;
        assert(gcd_nat(abs_int(a as int) as nat, abs_int(b as int) as nat) == gcd_nat(
            abs_int(b as int) as nat,
            abs_int(r as int) as nat,
        ));
        assert(egcd_spec(a as int, b as int) == (g as int, y1 as int, y as int)) by {
            assert((g as int, x1 as int, y1 as int) == egcd_spec(b as int, r as int));
            assert(q == tdiv_int(a as int, b as int));
            assert(y as int == x1 - q * y1);
        }
    }
    (g, y1, y)
}

/// `x mod m` normalized into `[0, m)`, computed without a negative
/// operand ever reaching the machine remainder.
pub fn emod_i128(x: i128, m: i128) -> (r: i128)
    requires
        1 <= m,
        x > i128::MIN,
    ensures
        r == (x as int) % (m as int),
        0 <= r < m,
{
    if x >= 0 {
        let r = x % m;
        proof {
            lemma_mod_division_less_than_divisor(x as int, m as int);
            lemma_mod_bound(x as int, m as int);
        }
        r
    } else {
        let y: i128 = -(x + 1);
        let r1: i128 = y % m;
        proof {
            lemma_mod_division_less_than_divisor(y as int, m as int);
            lemma_mod_bound(y as int, m as int);
            lemma_fundamental_div_mod(y as int, m as int);
            let q = y as int / m as int;
            assert(x as int == (-q - 1) * (m as int) + (m - 1 - r1)) by (nonlinear_arith)
                requires
                    x as int == -(y as int) - 1,
                    y as int == (m as int) * q + r1,
            ;
            lemma_fundamental_div_mod_converse_mod(x as int, m as int, -q - 1, m as int - 1 - r1);
        }
        m - 1 - r1
    }
}

/// `x mod m` on 64-bit values, normalized into `[0, m)`.
pub fn emod_i64(x: i64, m: i64) -> (r: i64)
    requires
        1 <= m,
    ensures
        r == (x as int) % (m as int),
        0 <= r < m,
{
    let r = emod_i128(x as i128, m as i128);
    r as i64
}

} // verus!
