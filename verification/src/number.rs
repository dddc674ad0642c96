//! The numeric tower: exact integers, exact rationals kept in lowest terms
//! with a positive denominator, and inexact (binary floating) numbers.
//!
//! An inexact number is a dyadic value `m * 2^e` with an odd mantissa of at
//! most 53 significant bits, the precision of an IEEE double.  Zero is
//! represented as `m == 0, e == 0`, so every value has exactly one
//! well-formed representation.

use vstd::prelude::*;
use vstd::arithmetic::div_mod::*;
use vstd::arithmetic::mul::*;
use vstd::arithmetic::power2::*;

verus! {

#[derive(Debug, Clone, Copy, PartialEq, Eq)]
pub enum Number {
    Int(i64),
    Rational(i64, i64),
    Float(Dyadic),
}

/// An inexact number `m * 2^e`.
#[derive(Debug, Clone, Copy, PartialEq, Eq)]
pub struct Dyadic {
    pub m: i64,
    pub e: i32,
}

/// Magnitude of an integer.
pub open spec fn iabs(x: int) -> nat {
    if x < 0 {
        (-x) as nat
    } else {
        x as nat
    }
}

/// Greatest common divisor, by Euclid's recursion.
pub open spec fn gcd(a: nat, b: nat) -> nat
    decreases b,
{
    if b == 0 {
        a
    } else {
        gcd(b, a % b)
    }
}

/// `d` divides `n`.
pub open spec fn divides(d: nat, n: nat) -> bool {
    if d == 0 {
        n == 0
    } else {
        n % d == 0
    }
}

/// A well-formed inexact number: mantissa within 53 bits, odd unless zero.
pub open spec fn dyadic_wf(d: Dyadic) -> bool {
    &&& -(pow2(53) as int) < d.m as int
    &&& (d.m as int) < pow2(53) as int
    &&& (d.m == 0 ==> d.e == 0)
    &&& (d.m != 0 ==> d.m as int % 2 == 1)
    &&& -200000 <= d.e <= 200000
}

/// The representation invariant of the tower: rationals are reduced, have a
/// denominator of at least two (else they are integers) and a non-zero
/// numerator; inexact numbers are canonical dyadics.
pub open spec fn number_wf(n: Number) -> bool {
    match n {
        Number::Int(_) => true,
        Number::Rational(p, q) => 2 <= q && p != 0 && gcd(iabs(p as int), q as nat) == 1,
        Number::Float(d) => dyadic_wf(d),
    }
}

pub open spec fn is_exact(n: Number) -> bool {
    !(n is Float)
}

/// Numerator of the mathematical value of `n`.
pub open spec fn val_num(n: Number) -> int {
    match n {
        Number::Int(i) => i as int,
        Number::Rational(p, _) => p as int,
        Number::Float(d) => if d.e >= 0 {
            d.m as int * pow2(d.e as nat) as int
        } else {
            d.m as int
        },
    }
}

/// Denominator (always positive) of the mathematical value of `n`.
pub open spec fn val_den(n: Number) -> int {
    match n {
        Number::Int(_) => 1,
        Number::Rational(_, q) => q as int,
        Number::Float(d) => if d.e >= 0 {
            1
        } else {
            pow2((-(d.e as int)) as nat) as int
        },
    }
}

pub proof fn lemma_divides_linear(g: nat, b: nat, r: nat, q: nat)
    requires
        divides(g, b),
        divides(g, r),
    ensures
        divides(g, (b * q + r) as nat),
{
    if g == 0 {
        assert(b == 0 && r == 0);
        assert(b * q == 0) by (nonlinear_arith)
            requires b == 0;
    } else {
        let kb = b as int / g as int;
        let kr = r as int / g as int;
        lemma_fundamental_div_mod(b as int, g as int);
        lemma_fundamental_div_mod(r as int, g as int);
        assert(b as int == g * kb + b as int % (g as int));
        assert(b as int % (g as int) == 0);
        assert(r == g * kr);
        assert(b * q + r == (kb * q + kr) * g) by (nonlinear_arith)
            requires b == g * kb, r == g * kr;
        lemma_mod_multiples_basic(kb * q + kr, g as int);
    }
}

pub proof fn lemma_gcd_divides(a: nat, b: nat)
    ensures
        divides(gcd(a, b), a),
        divides(gcd(a, b), b),
    decreases b,
{
    if b == 0 {
        if a != 0 {
            lemma_mod_self_0(a as int);
            lemma_small_mod(0, a);
        }
    } else {
        lemma_gcd_divides(b, a % b);
        let g = gcd(b, a % b);
        lemma_fundamental_div_mod(a as int, b as int);
        assert(a == b * (a as int / b as int) + a % b);
        lemma_div_pos_is_pos(a as int, b as int);
        lemma_divides_linear(g, b, a % b, (a as int / b as int) as nat);
        assert(b * ((a as int / b as int) as nat) + a % b == a);
    }
}

pub proof fn lemma_divides_gcd(a: nat, b: nat, d: nat)
    requires
        divides(d, a),
        divides(d, b),
    ensures
        divides(d, gcd(a, b)),
    decreases b,
{
    if b == 0 {
    } else {
        // d divides a % b == a - b * (a / b)
        let q = a as int / b as int;
        lemma_fundamental_div_mod(a as int, b as int);
        lemma_div_pos_is_pos(a as int, b as int);
        if d == 0 {
            assert(a == 0 && b == 0);
        } else {
            let ka = a as int / d as int;
            let kb = b as int / d as int;
            lemma_fundamental_div_mod(a as int, d as int);
            lemma_fundamental_div_mod(b as int, d as int);
            assert(a == d * ka);
            assert(b == d * kb);
            assert(a % b == (ka - kb * q) * d) by (nonlinear_arith)
                requires
                    a == d * ka,
                    b == d * kb,
                    a % b == a - b * q;
            lemma_mod_multiples_basic(ka - kb * q, d as int);
            assert(divides(d, a % b));
            lemma_divides_gcd(b, a % b, d);
        }
    }
}

pub proof fn lemma_divides_le(d: nat, n: nat)
    requires
        divides(d, n),
        n > 0,
    ensures
        0 < d <= n,
{
    if d == 0 {
    } else if d > n {
        lemma_small_mod(n, d);
    }
}

pub proof fn lemma_gcd_pos(a: nat, b: nat)
    requires
        a > 0 || b > 0,
    ensures
        gcd(a, b) > 0,
{
    lemma_gcd_divides(a, b);
    if gcd(a, b) == 0 {
        assert(a == 0 && b == 0);
    }
}

/// After dividing out the gcd, the two cofactors are coprime.
pub proof fn lemma_gcd_reduce(a: nat, b: nat)
    requires
        b > 0,
    ensures
        gcd(a, b) > 0,
        gcd((a as int / gcd(a, b) as int) as nat, (b as int / gcd(a, b) as int) as nat) == 1,
{
    let g = gcd(a, b);
    lemma_gcd_pos(a, b);
    lemma_gcd_divides(a, b);
    let ra = (a as int / g as int) as nat;
    let rb = (b as int / g as int) as nat;
    lemma_div_pos_is_pos(a as int, g as int);
    lemma_div_pos_is_pos(b as int, g as int);
    lemma_fundamental_div_mod(a as int, g as int);
    lemma_fundamental_div_mod(b as int, g as int);
    assert(a == g * ra);
    assert(b == g * rb);
    lemma_divides_le(g, b);
    lemma_div_non_zero(b as int, g as int);
    let c = gcd(ra, rb);
    lemma_gcd_pos(ra, rb);
    lemma_gcd_divides(ra, rb);
    if c > 1 {
        // c * g divides both a and b, hence divides g: contradiction.
        let ka = ra as int / c as int;
        let kb = rb as int / c as int;
        lemma_fundamental_div_mod(ra as int, c as int);
        lemma_fundamental_div_mod(rb as int, c as int);
        assert(ra == c * ka);
        assert(rb == c * kb);
        assert(a == ka * ((c * g) as int)) by (nonlinear_arith)
            requires a == g * ra, ra == c * ka;
        assert(b == kb * ((c * g) as int)) by (nonlinear_arith)
            requires b == g * rb, rb == c * kb;
        lemma_mod_multiples_basic(ka, (c * g) as int);
        lemma_mod_multiples_basic(kb, (c * g) as int);
        assert(divides((c * g) as nat, a));
        assert(divides((c * g) as nat, b));
        lemma_divides_gcd(a, b, (c * g) as nat);
        lemma_divides_le((c * g) as nat, g);
        assert(c * g > g) by (nonlinear_arith)
            requires c > 1, g > 0;
    }
}

/// Euclid's algorithm.
pub fn gcd_u64(a: u64, b: u64) -> (r: u64)
    ensures
        r == gcd(a as nat, b as nat),
    decreases b,
{
    if b == 0 {
        a
    } else {
        gcd_u64(b, a % b)
    }
}

fn abs_u64(x: i64) -> (r: u64)
    ensures
        r == iabs(x as int),
{
    if x >= 0 {
        x as u64
    } else {
        let w: i128 = -(x as i128);
        w as u64
    }
}

/// Builds the canonical exact number `p / q`: reduced to lowest terms, with
/// a positive denominator, collapsed to an integer when the denominator
/// divides the numerator.  Returns `None` only when the reduced numerator or
/// denominator falls outside the machine range (possible only at the very
/// edge of `i64`).
pub fn make_rational(p: i64, q: i64) -> (r: Option<Number>)
    requires
        q != 0,
    ensures
        match r {
            Some(n) => {
                &&& number_wf(n)
                &&& is_exact(n)
                &&& val_num(n) * q == p * val_den(n)
                &&& ((n is Int) <==> divides(iabs(q as int), iabs(p as int)))
            },
            None => p == i64::MIN || q == i64::MIN,
        },
{
    let pa: u64 = abs_u64(p);
    let qa: u64 = abs_u64(q);
    let neg: bool = (p < 0) != (q < 0);
    let g: u64 = gcd_u64(pa, qa);
    proof {
        assert(qa > 0);
        lemma_gcd_reduce(pa as nat, qa as nat);
        lemma_gcd_divides(pa as nat, qa as nat);
    }
    let pr: u64 = pa / g;
    let qr: u64 = qa / g;
    proof {
        lemma_fundamental_div_mod(pa as int, g as int);
        lemma_fundamental_div_mod(qa as int, g as int);
        lemma_div_pos_is_pos(pa as int, g as int);
        lemma_div_pos_is_pos(qa as int, g as int);
        assert(pa as int % g as int == 0 && qa as int % g as int == 0);
        assert(pa == g * pr);
        assert(qa == g * qr);
        assert(qr >= 1) by (nonlinear_arith)
            requires qa == g * qr, qa > 0;
        assert(pr <= pa && qr <= qa) by (nonlinear_arith)
            requires pa == g * pr, qa == g * qr, g >= 1, pr >= 0, qr >= 0;
        assert(pa > 0 ==> pr >= 1) by (nonlinear_arith)
            requires pa == g * pr;
        assert(gcd(pr as nat, qr as nat) == 1);
    }
    if qr == 1 {
        // The value is an integer.
        proof {
            assert(qa == g) by (nonlinear_arith)
                requires qa == g * qr, qr == 1;
            assert(divides(iabs(q as int), iabs(p as int))) by {
                lemma_mod_multiples_basic(pr as int, qa as int);
                assert(pa == pr * qa) by (nonlinear_arith)
                    requires pa == g * pr, qa == g;
            };
        }
        if neg {
            let v: i128 = -(pr as i128);
            proof {
                assert((v as i64) * q == p * 1) by (nonlinear_arith)
                    requires
                        v == -(pr as int),
                        -0x8000_0000_0000_0000 <= v <= 0,
                        pa == g * pr,
                        qa == g,
                        iabs(p as int) == pa,
                        iabs(q as int) == qa,
                        (p < 0) != (q < 0),
                        q != 0,
                        v as i64 == v;
            }
            Some(Number::Int(v as i64))
        } else {
            if pr >= 0x8000_0000_0000_0000u64 {
                // Only reachable from the extreme edge of the range.
                proof {
                    assert(pr <= pa);
                    assert(p == i64::MIN || q == i64::MIN);
                }
                None
            } else {
                let v: i64 = pr as i64;
                proof {
                    assert(v * q == p * 1) by (nonlinear_arith)
                        requires
                            v == pr as int,
                            pa == g * pr,
                            qa == g,
                            iabs(p as int) == pa,
                            iabs(q as int) == qa,
                            !((p < 0) != (q < 0)),
                            q != 0;
                }
                Some(Number::Int(v))
            }
        }
    } else {
        // The value is a proper rational.
        proof {
            assert(qr >= 2);
            assert(pr >= 1) by {
                if pa == 0 {
                    // gcd(0, qa) == qa, so qr would be 1.
                    lemma_small_mod(0, qa as nat);
                    assert(gcd(pa as nat, qa as nat) == gcd(qa as nat, 0));
                    assert(g == qa);
                    assert(qa == qa * qr) by (nonlinear_arith)
                        requires qa == g * qr, g == qa;
                    assert(false) by (nonlinear_arith)
                        requires qa == qa * qr, qa >= 1, qr >= 2;
                }
            };
            assert(!divides(iabs(q as int), iabs(p as int))) by {
                if divides(qa as nat, pa as nat) {
                    lemma_divides_gcd(pa as nat, qa as nat, qa as nat);
                    if qa != 0 {
                        lemma_mod_self_0(qa as int);
                        lemma_small_mod(0, qa as nat);
                        assert(divides(qa as nat, qa as nat));
                    }
                    lemma_divides_le(qa as nat, g as nat);
                    lemma_divides_le(g as nat, qa as nat);
                    assert(g == qa);
                    assert(false) by (nonlinear_arith)
                        requires qa == g * qr, g == qa, qa >= 1, qr >= 2;
                }
            };
        }
        if qr >= 0x8000_0000_0000_0000u64 {
            proof {
                assert(qr <= qa);
                assert(p == i64::MIN || q == i64::MIN);
            }
            None
        } else if !neg && pr >= 0x8000_0000_0000_0000u64 {
            proof {
                assert(pr <= pa);
                assert(p == i64::MIN || q == i64::MIN);
            }
            None
        } else {
            let d: i64 = qr as i64;
            let v: i64 = if neg {
                (-(pr as i128)) as i64
            } else {
                pr as i64
            };
            proof {
                assert(iabs(v as int) == pr && v != 0);
                assert(v * q == p * d) by (nonlinear_arith)
                    requires
                        iabs(v as int) == pr,
                        v != 0,
                        d == qr as int,
                        pa == g * pr,
                        qa == g * qr,
                        iabs(p as int) == pa,
                        iabs(q as int) == qa,
                        ((p < 0) != (q < 0)) == (v < 0),
                        q != 0,
                        pr >= 1;
            }
            Some(Number::Rational(v, d))
        }
    }
}

// ---------------------------------------------------------------------------
// Wide (128-bit) reduction, used by the arithmetic operations.
// ---------------------------------------------------------------------------

/// Whether `p / q` in lowest terms fits the `i64` numerator / denominator.
pub open spec fn reduced_fits(p: int, q: int) -> bool {
    let g = gcd(iabs(p), iabs(q)) as int;
    let rn = iabs(p) as int / g;
    let rd = iabs(q) as int / g;
    &&& rd < 0x8000_0000_0000_0000
    &&& (rn < 0x8000_0000_0000_0000 || (rn == 0x8000_0000_0000_0000 && ((p < 0) != (q
        < 0))))
}

fn abs_u128(x: i128) -> (r: u128)
    requires
        x != i128::MIN,
    ensures
        r == iabs(x as int),
{
    if x >= 0 {
        x as u128
    } else {
        (-x) as u128
    }
}

/// Euclid's algorithm on wide magnitudes.
pub fn gcd_u128(a: u128, b: u128) -> (r: u128)
    ensures
        r == gcd(a as nat, b as nat),
    decreases b,
{
    if b == 0 {
        a
    } else {
        gcd_u128(b, a % b)
    }
}

/// As `make_rational`, but over the wide intermediates that products of
/// machine integers produce.  Returns `None` exactly when the reduced
/// numerator or denominator does not fit `i64`.
pub fn make_rational_wide(p: i128, q: i128) -> (r: Option<Number>)
    requires
        q != 0,
        p != i128::MIN,
        q != i128::MIN,
    ensures
        match r {
            Some(n) => {
                &&& number_wf(n)
                &&& is_exact(n)
                &&& val_num(n) * q == p * val_den(n)
                &&& ((n is Int) <==> divides(iabs(q as int), iabs(p as int)))
            },
            None => !reduced_fits(p as int, q as int),
        },
{
    let pa: u128 = abs_u128(p);
    let qa: u128 = abs_u128(q);
    let neg: bool = (p < 0) != (q < 0);
    let g: u128 = gcd_u128(pa, qa);
    proof {
        assert(qa > 0);
        lemma_gcd_reduce(pa as nat, qa as nat);
        lemma_gcd_divides(pa as nat, qa as nat);
    }
    let pr: u128 = pa / g;
    let qr: u128 = qa / g;
    proof {
        lemma_fundamental_div_mod(pa as int, g as int);
        lemma_fundamental_div_mod(qa as int, g as int);
        lemma_div_pos_is_pos(pa as int, g as int);
        lemma_div_pos_is_pos(qa as int, g as int);
        assert(pa as int % g as int == 0 && qa as int % g as int == 0);
        assert(pa == g * pr);
        assert(qa == g * qr);
        assert(qr >= 1) by (nonlinear_arith)
            requires
                qa == g * qr,
                qa > 0,
        ;
        assert(pa > 0 ==> pr >= 1) by (nonlinear_arith)
            requires
                pa == g * pr,
        ;
        assert(gcd(pr as nat, qr as nat) == 1);
    }
    if qr == 1 {
        proof {
            assert(qa == g) by (nonlinear_arith)
                requires
                    qa == g * qr,
                    qr == 1,
            ;
            assert(divides(iabs(q as int), iabs(p as int))) by {
                lemma_mod_multiples_basic(pr as int, qa as int);
                assert(pa == pr * qa) by (nonlinear_arith)
                    requires
                        pa == g * pr,
                        qa == g,
                ;
            };
        }
        if neg {
            if pr > 0x8000_0000_0000_0000u128 {
                None
            } else {
                let v: i128 = -(pr as i128);
                proof {
                    assert((v as i64) * q == p * 1) by (nonlinear_arith)
                        requires
                            v == -(pr as int),
                            -0x8000_0000_0000_0000 <= v <= 0,
                            pa == g * pr,
                            qa == g,
                            iabs(p as int) == pa,
                            iabs(q as int) == qa,
                            (p < 0) != (q < 0),
                            q != 0,
                            v as i64 == v,
                    ;
                }
                Some(Number::Int(v as i64))
            }
        } else {
            if pr >= 0x8000_0000_0000_0000u128 {
                None
            } else {
                let v: i64 = pr as i64;
                proof {
                    assert(v * q == p * 1) by (nonlinear_arith)
                        requires
                            v == pr as int,
                            pa == g * pr,
                            qa == g,
                            iabs(p as int) == pa,
                            iabs(q as int) == qa,
                            !((p < 0) != (q < 0)),
                            q != 0,
                    ;
                }
                Some(Number::Int(v))
            }
        }
    } else {
        proof {
            assert(qr >= 2);
            assert(pr >= 1) by {
                if pa == 0 {
                    lemma_small_mod(0, qa as nat);
                    assert(gcd(pa as nat, qa as nat) == gcd(qa as nat, 0));
                    assert(g == qa);
                    assert(qa == qa * qr) by (nonlinear_arith)
                        requires
                            qa == g * qr,
                            g == qa,
                    ;
                    assert(false) by (nonlinear_arith)
                        requires
                            qa == qa * qr,
                            qa >= 1,
                            qr >= 2,
                    ;
                }
            };
            assert(!divides(iabs(q as int), iabs(p as int))) by {
                if divides(qa as nat, pa as nat) {
                    lemma_divides_gcd(pa as nat, qa as nat, qa as nat);
                    if qa != 0 {
                        lemma_mod_self_0(qa as int);
                        lemma_small_mod(0, qa as nat);
                        assert(divides(qa as nat, qa as nat));
                    }
                    lemma_divides_le(qa as nat, g as nat);
                    lemma_divides_le(g as nat, qa as nat);
                    assert(g == qa);
                    assert(false) by (nonlinear_arith)
                        requires
                            qa == g * qr,
                            g == qa,
                            qa >= 1,
                            qr >= 2,
                    ;
                }
            };
        }
        if qr >= 0x8000_0000_0000_0000u128 {
            None
        } else if !neg && pr >= 0x8000_0000_0000_0000u128 {
            None
        } else if neg && pr > 0x8000_0000_0000_0000u128 {
            None
        } else {
            let d: i64 = qr as i64;
            let v: i64 = if neg {
                (-(pr as i128)) as i64
            } else {
                pr as i64
            };
            proof {
                assert(iabs(v as int) == pr && v != 0);
                assert(v * q == p * d) by (nonlinear_arith)
                    requires
                        iabs(v as int) == pr,
                        v != 0,
                        d == qr as int,
                        pa == g * pr,
                        qa == g * qr,
                        iabs(p as int) == pa,
                        iabs(q as int) == qa,
                        ((p < 0) != (q < 0)) == (v < 0),
                        q != 0,
                        pr >= 1,
                ;
            }
            Some(Number::Rational(v, d))
        }
    }
}

// ---------------------------------------------------------------------------
// Dyadic (inexact) values: `m * 2^e` as exact rationals in the specification.
// ---------------------------------------------------------------------------

/// Numerator of the value `m * 2^e`.
pub open spec fn dy_num(m: int, e: int) -> int {
    if e >= 0 {
        m * pow2(e as nat) as int
    } else {
        m
    }
}

/// Denominator (positive) of the value `m * 2^e`.
pub open spec fn dy_den(e: int) -> int {
    if e >= 0 {
        1
    } else {
        pow2((-e) as nat) as int
    }
}

/// The values `m1 * 2^e1` and `m2 * 2^e2` are equal.
pub open spec fn dy_eq(m1: int, e1: int, m2: int, e2: int) -> bool {
    dy_num(m1, e1) * dy_den(e2) == dy_num(m2, e2) * dy_den(e1)
}

/// The value `m1 * 2^e1` is less than `m2 * 2^e2`.
pub open spec fn dy_lt(m1: int, e1: int, m2: int, e2: int) -> bool {
    dy_num(m1, e1) * dy_den(e2) < dy_num(m2, e2) * dy_den(e1)
}

pub proof fn lemma_dy_den_pos(e: int)
    ensures
        dy_den(e) >= 1,
{
    if e < 0 {
        lemma_pow2_pos((-e) as nat);
    }
}

/// Scaling the mantissa up by `2^d` while lowering the exponent by `d`
/// preserves the value.
pub proof fn lemma_dy_shift(m: int, e: int, d: nat)
    ensures
        dy_eq(m * pow2(d) as int, e, m, e + d),
{
    lemma_pow2_pos(d);
    if e >= 0 {
        lemma_pow2_adds(d, e as nat);
        assert((m * pow2(d)) * pow2(e as nat) == m * pow2((d + e) as nat)) by (nonlinear_arith)
            requires
                pow2(d) * pow2(e as nat) == pow2((d + e) as nat),
        ;
    } else if e + d >= 0 {
        lemma_pow2_adds((e + d) as nat, (-e) as nat);
        assert((m * pow2(d)) * 1 == (m * pow2((e + d) as nat)) * pow2((-e) as nat))
            by (nonlinear_arith)
            requires
                pow2((e + d) as nat) * pow2((-e) as nat) == pow2(d),
        ;
    } else {
        lemma_pow2_adds(d, (-(e + d)) as nat);
        assert((m * pow2(d)) * pow2((-(e + d)) as nat) == m * pow2((-e) as nat))
            by (nonlinear_arith)
            requires
                pow2(d) * pow2((-(e + d)) as nat) == pow2((-e) as nat),
        ;
    }
}

/// At a common exponent, value order is mantissa order.
pub proof fn lemma_dy_same_exp(x: int, y: int, e: int)
    ensures
        dy_lt(x, e, y, e) <==> x < y,
        dy_eq(x, e, y, e) <==> x == y,
{
    if e >= 0 {
        lemma_pow2_pos(e as nat);
        assert((x * pow2(e as nat)) * 1 < (y * pow2(e as nat)) * 1 <==> x < y) by (nonlinear_arith)
            requires
                pow2(e as nat) >= 1,
        ;
        assert((x * pow2(e as nat)) * 1 == (y * pow2(e as nat)) * 1 <==> x == y)
            by (nonlinear_arith)
            requires
                pow2(e as nat) >= 1,
        ;
    } else {
        lemma_pow2_pos((-e) as nat);
        assert(x * pow2((-e) as nat) < y * pow2((-e) as nat) <==> x < y) by (nonlinear_arith)
            requires
                pow2((-e) as nat) >= 1,
        ;
        assert(x * pow2((-e) as nat) == y * pow2((-e) as nat) <==> x == y) by (nonlinear_arith)
            requires
                pow2((-e) as nat) >= 1,
        ;
    }
}

/// Replacing one side of a comparison by an equal value keeps the outcome.
pub proof fn lemma_dy_subst_left(m1: int, e1: int, m2: int, e2: int, m3: int, e3: int)
    requires
        dy_eq(m1, e1, m2, e2),
    ensures
        dy_lt(m1, e1, m3, e3) <==> dy_lt(m2, e2, m3, e3),
        dy_lt(m3, e3, m1, e1) <==> dy_lt(m3, e3, m2, e2),
        dy_eq(m1, e1, m3, e3) <==> dy_eq(m2, e2, m3, e3),
{
    lemma_dy_den_pos(e1);
    lemma_dy_den_pos(e2);
    lemma_dy_den_pos(e3);
    let n1 = dy_num(m1, e1);
    let n2 = dy_num(m2, e2);
    let n3 = dy_num(m3, e3);
    let d1 = dy_den(e1);
    let d2 = dy_den(e2);
    let d3 = dy_den(e3);
    assert((n1 * d3 < n3 * d1 <==> n2 * d3 < n3 * d2) && (n3 * d1 < n1 * d3 <==> n3 * d2 < n2
        * d3) && (n1 * d3 == n3 * d1 <==> n2 * d3 == n3 * d2)) by (nonlinear_arith)
        requires
            n1 * d2 == n2 * d1,
            d1 >= 1,
            d2 >= 1,
            d3 >= 1,
    ;
}

/// The sign of a dyadic value is the sign of its mantissa.
pub proof fn lemma_dy_sign(m: int, e: int)
    ensures
        dy_lt(m, e, 0, 0) <==> m < 0,
        dy_lt(0, 0, m, e) <==> m > 0,
        dy_eq(m, e, 0, 0) <==> m == 0,
{
    lemma_dy_den_pos(e);
    assert(dy_num(0, 0) == 0);
    assert(dy_den(0) == 1);
    assert(dy_num(0, 0) * dy_den(e) == 0) by (nonlinear_arith)
        requires
            dy_num(0, 0) == 0,
    ;
    assert(dy_num(m, e) * dy_den(0) == dy_num(m, e)) by (nonlinear_arith)
        requires
            dy_den(0) == 1,
    ;
    if e >= 0 {
        lemma_pow2_pos(e as nat);
        assert(((m * (pow2(e as nat) as int)) < 0 <==> m < 0) && ((m * (pow2(e as nat) as int)) > 0
            <==> m > 0) && ((m * (pow2(e as nat) as int)) == 0 <==> m == 0)) by (nonlinear_arith)
            requires
                pow2(e as nat) >= 1,
        ;
    }
}

/// `2^s` as a wide machine integer.
pub fn pow2_u128(s: u32) -> (r: u128)
    requires
        s <= 126,
    ensures
        r == pow2(s as nat),
        r >= 1,
{
    let mut i: u32 = 0;
    let mut r: u128 = 1;
    proof {
        lemma2_to64();
    }
    while i < s
        invariant
            i <= s,
            s <= 126,
            r == pow2(i as nat),
        decreases s - i,
    {
        proof {
            lemma_pow2_adds(i as nat, 1);
            lemma2_to64();
            lemma_pow2_126();
            lemma_pow2_strictly_increases(i as nat, 126);
        }
        r = r * 2;
        i = i + 1;
    }
    proof {
        lemma_pow2_pos(s as nat);
    }
    r
}

pub proof fn lemma_pow2_126()
    ensures
        pow2(126) == 0x4000_0000_0000_0000_0000_0000_0000_0000,
{
    lemma2_to64_rest();
    lemma_pow2_adds(63, 63);
}

pub proof fn lemma_pow2_127()
    ensures
        pow2(127) == 0x8000_0000_0000_0000_0000_0000_0000_0000,
{
    lemma2_to64_rest();
    lemma_pow2_adds(63, 64);
}

/// Rounds `m * 2^e0` to the canonical dyadic of at most 53 significant
/// bits, rounding half away from zero; exact whenever the mantissa already
/// fits.  `None` only when the exponent leaves the tower's range.
pub fn norm_dyadic(m: i128, e0: i64) -> (r: Option<Dyadic>)
    requires
        m != i128::MIN,
        -500000 <= e0 <= 500000,
    ensures
        match r {
            Some(d) => dyadic_wf(d) && (d.m == 0 <==> m == 0) && (iabs(m as int) < pow2(53)
                ==> dy_eq(d.m as int, d.e as int, m as int, e0 as int)),
            None => m != 0 && (e0 > 199000 || e0 < -200000),
        },
{
    if m == 0 {
        proof {
            lemma_pow2_pos(53);
            lemma_dy_sign(0, e0 as int);
        }
        return Some(Dyadic { m: 0, e: 0 });
    }
    let neg: bool = m < 0;
    let mag: u128 = abs_u128(m);
    let mut s: u32 = 0;
    let mut t: u128 = mag;
    proof {
        lemma2_to64();
        lemma_pow2_127();
        lemma_div_basics(mag as int);
    }
    while t >= 0x20_0000_0000_0000u128
        invariant
            mag == iabs(m as int),
            1 <= mag,
            mag < pow2(127),
            t == mag as int / pow2(s as nat) as int,
            pow2(s as nat) <= mag,
            s <= 126,
            mag < 0x20_0000_0000_0000u128 ==> s == 0,
        decreases t,
    {
        proof {
            lemma2_to64();
            lemma_pow2_pos(s as nat);
            lemma_pow2_adds(s as nat, 1);
            lemma_div_denominator(mag as int, pow2(s as nat) as int, 2);
            lemma_fundamental_div_mod(mag as int, pow2(s as nat) as int);
            lemma_mod_division_less_than_divisor(mag as int, pow2(s as nat) as int);
            assert(mag >= 2 * pow2(s as nat)) by (nonlinear_arith)
                requires
                    mag as int == pow2(s as nat) * t + mag as int % (pow2(s as nat) as int),
                    t >= 2,
                    mag as int % (pow2(s as nat) as int) >= 0,
            ;
            if s + 1 > 126 {
                lemma_pow2_strictly_increases(126, (s + 1) as nat);
                lemma_pow2_126();
            }
            lemma_div_is_strictly_smaller(t as int, 2);
        }
        t = t / 2;
        s = s + 1;
    }
    let pw: u128 = pow2_u128(s);
    let q0: u128 = mag / pw;
    let rem: u128 = mag % pw;
    proof {
        lemma_mod_division_less_than_divisor(mag as int, pw as int);
        lemma_div_pos_is_pos(mag as int, pw as int);
        lemma_div_non_zero(mag as int, pw as int);
    }
    let mut q: u128 = q0;
    let mut e: i64 = e0 + s as i64;
    if rem * 2 >= pw {
        q = q + 1;
    }
    if q >= 0x20_0000_0000_0000u128 {
        proof {
            lemma2_to64();
        }
        q = q / 2;
        e = e + 1;
    }
    let ghost sm0: int = if neg {
        -(q as int)
    } else {
        q as int
    };
    let ghost q_init: u128 = q;
    let ghost e_init: i64 = e;
    proof {
        lemma2_to64();
        assert(q * pow2((e - e_init) as nat) == q_init) by (nonlinear_arith)
            requires
                pow2((e - e_init) as nat) == 1,
                q == q_init,
        ;
        if iabs(m as int) < pow2(53) {
            lemma2_to64_rest();
            assert(s == 0);
            lemma_div_basics(mag as int);
            assert(pw == 1);
            assert(q == mag);
            assert(e == e0);
            assert(sm0 == m as int);
        }
    }
    while q % 2 == 0
        invariant
            1 <= q,
            q < 0x20_0000_0000_0000u128,
            q_init < 0x20_0000_0000_0000u128,
            -500000 <= e0 <= 500000,
            e0 <= e_init <= e0 + 128,
            e_init <= e,
            q * pow2((e - e_init) as nat) == q_init,
            e <= e_init + 53,
            neg == (m < 0),
            iabs(m as int) < pow2(53) ==> dy_eq(
                if neg { -(q as int) } else { q as int },
                e as int,
                m as int,
                e0 as int,
            ),
        decreases q,
    {
        proof {
            // the halving count is bounded by the width of the mantissa
            lemma2_to64();
            lemma_fundamental_div_mod(q as int, 2);
            lemma_pow2_adds((e - e_init) as nat, 1);
            assert((q / 2) * pow2((e + 1 - e_init) as nat) == q_init) by (nonlinear_arith)
                requires
                    q * pow2((e - e_init) as nat) == q_init,
                    q == 2 * (q / 2),
                    pow2((e + 1 - e_init) as nat) == pow2((e - e_init) as nat) * 2,
            ;
            lemma2_to64_rest();
            if e + 1 > e_init + 53 {
                lemma_pow2_strictly_increases(53, (e + 1 - e_init) as nat);
                lemma_pow2_pos((e + 1 - e_init) as nat);
                assert(q_init >= pow2((e + 1 - e_init) as nat)) by (nonlinear_arith)
                    requires
                        (q / 2) * pow2((e + 1 - e_init) as nat) == q_init,
                        q / 2 >= 1,
                        pow2((e + 1 - e_init) as nat) >= 1,
                ;
            }
        }
        proof {
            lemma2_to64();
            let x: int = if neg { -((q / 2) as int) } else { (q / 2) as int };
            lemma_dy_shift(x, e as int, 1);
            assert(x * pow2(1) as int == (if neg { -(q as int) } else { q as int }))
                by (nonlinear_arith)
                requires
                    pow2(1) == 2,
                    q % 2 == 0,
                    q == 2 * (q / 2),
                    x == (if neg { -((q / 2) as int) } else { (q / 2) as int }),
            ;
            if iabs(m as int) < pow2(53) {
                lemma_dy_subst_left(
                    x,
                    e as int + 1,
                    if neg { -(q as int) } else { q as int },
                    e as int,
                    m as int,
                    e0 as int,
                );
            }
            lemma_fundamental_div_mod(q as int, 2);
            assert(e <= e_init + 53 && e_init <= e0 + 128 && e0 <= 500000);
        }
        q = q / 2;
        e = e + 1;
    }
    if e > 200000 || e < -200000 {
        proof {
            assert(e >= e0);
            assert(e <= e0 + 128 + 53);
        }
        return None;
    }
    let mm: i64 = if neg {
        (-(q as i128)) as i64
    } else {
        q as i64
    };
    proof {
        lemma2_to64_rest();
        assert(iabs(mm as int) == q);
        assert(mm as int % 2 == 1) by {
            assert(q % 2 == 1);
            if mm < 0 {
                lemma_mod_add_multiples_vanish(-(q as int), 2);
                assert((-(q as int)) % 2 == (2 - q as int) % 2);
            }
        };
    }
    Some(Dyadic { m: mm, e: e as i32 })
}

/// Ordering facts chain across equal denominators.
pub proof fn lemma_dy_le_lt_trans(
    m1: int, e1: int, m2: int, e2: int, m3: int, e3: int,
)
    requires
        dy_lt(m1, e1, m2, e2) || dy_eq(m1, e1, m2, e2),
        dy_lt(m2, e2, m3, e3) || dy_eq(m2, e2, m3, e3),
        !(dy_eq(m1, e1, m2, e2) && dy_eq(m2, e2, m3, e3)),
    ensures
        dy_lt(m1, e1, m3, e3),
{
    lemma_dy_den_pos(e1);
    lemma_dy_den_pos(e2);
    lemma_dy_den_pos(e3);
    let n1 = dy_num(m1, e1);
    let n2 = dy_num(m2, e2);
    let n3 = dy_num(m3, e3);
    let d1 = dy_den(e1);
    let d2 = dy_den(e2);
    let d3 = dy_den(e3);
    assert(n1 * d3 < n3 * d1) by (nonlinear_arith)
        requires
            n1 * d2 <= n2 * d1,
            n2 * d3 <= n3 * d2,
            (n1 * d2 < n2 * d1) || (n2 * d3 < n3 * d2),
            d1 >= 1,
            d2 >= 1,
            d3 >= 1,
    ;
}

/// Negating both sides reverses the order and keeps equality.
pub proof fn lemma_dy_neg(m1: int, e1: int, m2: int, e2: int)
    ensures
        dy_lt(m1, e1, m2, e2) <==> dy_lt(-m2, e2, -m1, e1),
        dy_eq(m1, e1, m2, e2) <==> dy_eq(-m2, e2, -m1, e1),
{
    lemma_dy_den_pos(e1);
    lemma_dy_den_pos(e2);
    if e1 >= 0 {
        assert((-m1) * pow2(e1 as nat) as int == -(m1 * pow2(e1 as nat) as int))
            by (nonlinear_arith);
    }
    if e2 >= 0 {
        assert((-m2) * pow2(e2 as nat) as int == -(m2 * pow2(e2 as nat) as int))
            by (nonlinear_arith);
    }
    assert(dy_num(-m1, e1) == -dy_num(m1, e1));
    assert(dy_num(-m2, e2) == -dy_num(m2, e2));
    let n1 = dy_num(m1, e1);
    let n2 = dy_num(m2, e2);
    let d1 = dy_den(e1);
    let d2 = dy_den(e2);
    assert(((-n2) * d1 < (-n1) * d2 <==> n1 * d2 < n2 * d1) && ((-n2) * d1 == (-n1) * d2 <==> n1
        * d2 == n2 * d1)) by (nonlinear_arith);
}

/// Three-way comparison of dyadic values with positive mantissas.
fn cmp_pos(ma: i64, ea: i32, mb: i64, eb: i32) -> (r: i8)
    requires
        1 <= ma,
        (ma as int) < pow2(53),
        1 <= mb,
        (mb as int) < pow2(53),
        -200000 <= ea <= 200000,
        -200000 <= eb <= 200000,
    ensures
        (r == -1 <==> dy_lt(ma as int, ea as int, mb as int, eb as int)),
        (r == 0 <==> dy_eq(ma as int, ea as int, mb as int, eb as int)),
        (r == 1 <==> dy_lt(mb as int, eb as int, ma as int, ea as int)),
    decreases (if ea < eb { 1int } else { 0int }),
{
    if ea == eb {
        proof {
            lemma_dy_same_exp(ma as int, mb as int, ea as int);
        }
        if ma < mb {
            -1
        } else if ma == mb {
            0
        } else {
            1
        }
    } else if ea > eb {
        let d: u32 = (ea as i64 - eb as i64) as u32;
        proof {
            lemma_dy_shift(ma as int, eb as int, d as nat);
            lemma2_to64_rest();
        }
        if d >= 53 {
            proof {
                if d > 53 {
                    lemma_pow2_strictly_increases(53, d as nat);
                }
                lemma_pow2_pos(d as nat);
                assert(mb < ma * pow2(d as nat)) by (nonlinear_arith)
                    requires
                        ma >= 1,
                        pow2(d as nat) >= pow2(53),
                        (mb as int) < pow2(53),
                ;
                lemma_dy_same_exp(ma as int * pow2(d as nat) as int, mb as int, eb as int);
                lemma_dy_subst_left(
                    ma as int * pow2(d as nat) as int,
                    eb as int,
                    ma as int,
                    ea as int,
                    mb as int,
                    eb as int,
                );
            }
            1
        } else {
            let pw: u128 = pow2_u128(d);
            proof {
                if d < 52 {
                    lemma_pow2_strictly_increases(d as nat, 52);
                }
                assert(ma * pow2(d as nat) < pow2(53) * pow2(52)) by (nonlinear_arith)
                    requires
                        1 <= ma,
                        (ma as int) < pow2(53),
                        1 <= pow2(d as nat),
                        pow2(d as nat) <= pow2(52),
                ;
                lemma_pow2_adds(53, 52);
                lemma_pow2_126();
                lemma_pow2_strictly_increases(105, 126);
            }
            let am: i128 = (ma as i128) * (pw as i128);
            proof {
                lemma_dy_same_exp(am as int, mb as int, eb as int);
                lemma_dy_subst_left(
                    am as int,
                    eb as int,
                    ma as int,
                    ea as int,
                    mb as int,
                    eb as int,
                );
            }
            if am < mb as i128 {
                -1
            } else if am == mb as i128 {
                0
            } else {
                1
            }
        }
    } else {
        let r2: i8 = cmp_pos(mb, eb, ma, ea);
        -r2
    }
}

/// Exact three-way comparison of two inexact numbers: `-1`, `0` or `1` as
/// the first is less than, equal to, or greater than the second.
pub fn dyadic_cmp(a: Dyadic, b: Dyadic) -> (r: i8)
    requires
        dyadic_wf(a),
        dyadic_wf(b),
    ensures
        (r == -1 <==> dy_lt(a.m as int, a.e as int, b.m as int, b.e as int)),
        (r == 0 <==> dy_eq(a.m as int, a.e as int, b.m as int, b.e as int)),
        (r == 1 <==> dy_lt(b.m as int, b.e as int, a.m as int, a.e as int)),
{
    proof {
        lemma_dy_sign(a.m as int, a.e as int);
        lemma_dy_sign(b.m as int, b.e as int);
    }
    if a.m == 0 && b.m == 0 {
        proof {
            lemma_dy_subst_left(a.m as int, a.e as int, 0, 0, b.m as int, b.e as int);
        }
        0
    } else if a.m <= 0 && b.m > 0 {
        proof {
            lemma_dy_le_lt_trans(a.m as int, a.e as int, 0, 0, b.m as int, b.e as int);
        }
        -1
    } else if a.m > 0 && b.m <= 0 {
        proof {
            lemma_dy_le_lt_trans(b.m as int, b.e as int, 0, 0, a.m as int, a.e as int);
        }
        1
    } else if a.m == 0 && b.m < 0 {
        proof {
            lemma_dy_subst_left(a.m as int, a.e as int, 0, 0, b.m as int, b.e as int);
        }
        1
    } else if b.m == 0 {
        // here a.m < 0
        proof {
            lemma_dy_subst_left(b.m as int, b.e as int, 0, 0, a.m as int, a.e as int);
        }
        -1
    } else if a.m > 0 {
        // both positive
        cmp_pos(a.m, a.e, b.m, b.e)
    } else {
        // both negative: compare the negations, which swaps the operands
        // back into the original order
        proof {
            lemma_dy_neg(a.m as int, a.e as int, b.m as int, b.e as int);
            lemma_dy_neg(b.m as int, b.e as int, a.m as int, a.e as int);
            lemma_dy_neg(a.m as int, a.e as int, a.m as int, a.e as int);
        }
        cmp_pos(-b.m, b.e, -a.m, a.e)
    }
}

// ---------------------------------------------------------------------------
// Dyadic arithmetic.  Every operation rounds its exact result through
// `norm_dyadic`, so well-formedness is preserved throughout.
// ---------------------------------------------------------------------------

pub fn dyadic_neg(a: Dyadic) -> (r: Dyadic)
    requires
        dyadic_wf(a),
    ensures
        dyadic_wf(r),
        r.m == -a.m && r.e == a.e,
{
    proof {
        if a.m != 0 {
            lemma_mod_add_multiples_vanish(-(a.m as int), 2);
        }
    }
    Dyadic { m: -a.m, e: a.e }
}

/// Number of binary digits of `x`: the least `n` with `x < 2^n`.
fn bit_length(x: u128) -> (n: u32)
    ensures
        (x as int) < pow2(n as nat),
        n > 0 ==> pow2((n - 1) as nat) <= x,
        n <= 128,
{
    let mut n: u32 = 0;
    let mut t: u128 = x;
    proof {
        lemma2_to64();
        lemma_div_basics(x as int);
        lemma_pow2_127();
        lemma_pow2_adds(127, 1);
    }
    while t > 0
        invariant
            t == x as int / pow2(n as nat) as int,
            n > 0 ==> pow2((n - 1) as nat) <= x,
            n <= 128,
            x < pow2(128),
        decreases t,
    {
        proof {
            lemma2_to64();
            lemma_pow2_pos(n as nat);
            lemma_pow2_adds(n as nat, 1);
            lemma_div_denominator(x as int, pow2(n as nat) as int, 2);
            lemma_fundamental_div_mod(x as int, pow2(n as nat) as int);
            lemma_mod_division_less_than_divisor(x as int, pow2(n as nat) as int);
            assert(x >= pow2(n as nat)) by (nonlinear_arith)
                requires
                    x as int == pow2(n as nat) * t + x as int % (pow2(n as nat) as int),
                    t >= 1,
                    x as int % (pow2(n as nat) as int) >= 0,
                    pow2(n as nat) >= 1,
            ;
            if n + 1 > 128 {
                lemma_pow2_strictly_increases(128, (n + 1) as nat);
            }
            lemma_div_is_strictly_smaller(t as int, 2);
        }
        t = t / 2;
        n = n + 1;
    }
    proof {
        if x as int / pow2(n as nat) as int == 0 {
            lemma_pow2_pos(n as nat);
            lemma_fundamental_div_mod(x as int, pow2(n as nat) as int);
            lemma_mod_division_less_than_divisor(x as int, pow2(n as nat) as int);
        }
    }
    n
}

/// Inexact addition: exact alignment when the exponents are close, the
/// larger operand alone when they are not, rounded to the tower's
/// precision.  At a common exponent with a small sum, the result is the
/// exact sum.
pub fn dyadic_add(a: Dyadic, b: Dyadic) -> (r: Option<Dyadic>)
    requires
        dyadic_wf(a),
        dyadic_wf(b),
    ensures
        match r {
            Some(d) => dyadic_wf(d) && (a.m == 0 ==> d == b) && (b.m == 0 ==> d == a) && ((a.e
                == b.e && a.m != 0 && b.m != 0 && -(pow2(53) as int) < a.m + b.m
                && a.m + b.m < pow2(53) as int) ==> dy_eq(
                d.m as int,
                d.e as int,
                a.m + b.m,
                a.e as int,
            )),
            None => a.m != 0 && b.m != 0,
        },
{
    if a.m == 0 {
        return Some(b);
    }
    if b.m == 0 {
        return Some(a);
    }
    let (hi, lo) = if a.e >= b.e {
        (a, b)
    } else {
        (b, a)
    };
    let d: i64 = hi.e as i64 - lo.e as i64;
    if d > 73 {
        return Some(hi);
    }
    let pw: u128 = pow2_u128(d as u32);
    proof {
        lemma2_to64_rest();
        if (d as nat) < 73 {
            lemma_pow2_strictly_increases(d as nat, 73);
        }
        lemma_pow2_adds(53, 73);
        lemma_pow2_126();
        assert(pow2(53) * pow2(73) == pow2(126));
        assert(-(pow2(126) as int) < (hi.m as int) * (pw as int) < pow2(126) as int)
            by (nonlinear_arith)
            requires
                -(pow2(53) as int) < hi.m as int,
                (hi.m as int) < pow2(53) as int,
                1 <= pw as int,
                pw as int <= pow2(73) as int,
                pow2(53) * pow2(73) == pow2(126),
                pow2(53) >= 1,
                pow2(73) >= 1,
        ;
    }
    let hm: i128 = (hi.m as i128) * (pw as i128);
    let sum: i128 = hm + lo.m as i128;
    proof {
        lemma_pow2_127();
        lemma_pow2_strictly_increases(126, 127);
        if a.e == b.e {
            lemma2_to64();
            assert(d == 0);
            assert(pw == 1);
            assert(hm == hi.m) by (nonlinear_arith)
                requires
                    hm == (hi.m as int) * (pw as int),
                    pw == 1,
            ;
            assert(sum == a.m + b.m);
        }
    }
    norm_dyadic(sum, lo.e as i64)
}

/// Inexact multiplication; exact whenever the product of the mantissas
/// still fits the tower's precision.
pub fn dyadic_mul(a: Dyadic, b: Dyadic) -> (r: Option<Dyadic>)
    requires
        dyadic_wf(a),
        dyadic_wf(b),
    ensures
        match r {
            Some(d) => dyadic_wf(d) && ((a.m == 0 || b.m == 0) ==> d.m == 0) && ((-(pow2(53) as int)
                < (a.m as int) * (b.m as int) && (a.m as int) * (b.m as int) < pow2(53) as int)
                ==> dy_eq(d.m as int, d.e as int, (a.m as int) * (b.m as int), a.e + b.e)),
            None => a.m != 0 && b.m != 0,
        },
{
    proof {
        lemma_pow2_adds(53, 53);
        lemma_pow2_126();
        lemma_pow2_127();
        lemma_pow2_strictly_increases(106, 126);
        assert(-(pow2(106) as int) < (a.m as int) * (b.m as int) < pow2(106) as int)
            by (nonlinear_arith)
            requires
                -(pow2(53) as int) < a.m as int,
                (a.m as int) < pow2(53) as int,
                -(pow2(53) as int) < b.m as int,
                (b.m as int) < pow2(53) as int,
                pow2(53) * pow2(53) == pow2(106),
                pow2(53) >= 1,
        ;
    }
    let m: i128 = (a.m as i128) * (b.m as i128);
    let e: i64 = a.e as i64 + b.e as i64;
    let r = norm_dyadic(m, e);
    proof {
        if a.m == 0 || b.m == 0 {
            assert(m == 0) by (nonlinear_arith)
                requires
                    m == (a.m as int) * (b.m as int),
                    a.m == 0 || b.m == 0,
            ;
            if r is Some {
                let d = r->Some_0;
                if d.m != 0 {
                    lemma_pow2_pos(53);
                    lemma_dy_sign(d.m as int, d.e as int);
                    lemma_dy_sign(0, e as int);
                    lemma_dy_subst_left(d.m as int, d.e as int, 0, e as int, 0, 0);
                }
            }
        }
    }
    r
}

/// Inexact division, rounded to the tower's precision.
pub fn dyadic_div(a: Dyadic, b: Dyadic) -> (r: Option<Dyadic>)
    requires
        dyadic_wf(a),
        dyadic_wf(b),
        b.m != 0,
    ensures
        match r {
            Some(d) => dyadic_wf(d) && (a.m == 0 ==> d.m == 0),
            None => a.m != 0,
        },
{
    if a.m == 0 {
        proof {
            lemma_pow2_pos(53);
        }
        return Some(Dyadic { m: 0, e: 0 });
    }
    let neg: bool = (a.m < 0) != (b.m < 0);
    let ma: u128 = if a.m < 0 {
        (-(a.m as i128)) as u128
    } else {
        a.m as u128
    };
    let mb: u128 = if b.m < 0 {
        (-(b.m as i128)) as u128
    } else {
        b.m as u128
    };
    let ba: u32 = bit_length(ma);
    let bb: u32 = bit_length(mb);
    // scale the dividend so the quotient keeps at least 54 significant bits
    let t: u32 = if 54 + bb > ba {
        54 + bb - ba
    } else {
        0
    };
    proof {
        lemma2_to64();
        lemma2_to64_rest();
        assert(ba >= 1);
        if (ba as nat) < 54 {
            lemma_pow2_strictly_increases(ba as nat, 54);
        }
        if (bb as nat) < 54 {
            lemma_pow2_strictly_increases(bb as nat, 54);
        }
        assert(ba <= 54 && bb <= 54) by {
            lemma_pow2_strictly_increases(53, 54);
            if ba > 54 {
                lemma_pow2_strictly_increases(54, (ba - 1) as nat);
            }
            if bb > 54 {
                lemma_pow2_strictly_increases(54, (bb - 1) as nat);
            }
        };
        lemma_pow2_adds(ba as nat, t as nat);
        lemma_pow2_adds(54, bb as nat);
        if t == 0 {
            lemma_pow2_strictly_increases(ba as nat, (54 + bb) as nat);
        }
        lemma_pow2_pos(t as nat);
        assert(ma * pow2(t as nat) < pow2((54 + bb) as nat)) by (nonlinear_arith)
            requires
                (ma as int) < pow2(ba as nat) as int,
                pow2(ba as nat) * pow2(t as nat) == pow2((ba + t) as nat),
                pow2((ba + t) as nat) <= pow2((54 + bb) as nat),
                pow2(t as nat) >= 1,
                ma >= 1,
        ;
        lemma_pow2_adds(54, 54);
        lemma_pow2_126();
        lemma_pow2_strictly_increases((54 + bb) as nat, 126);
    }
    let pw: u128 = pow2_u128(t);
    let num: u128 = ma * pw;
    let q0: u128 = num / mb;
    let rem: u128 = num % mb;
    proof {
        lemma_mod_division_less_than_divisor(num as int, mb as int);
        lemma_div_pos_is_pos(num as int, mb as int);
        lemma_div_is_ordered_by_denominator(num as int, 1, mb as int);
        lemma_div_basics(num as int);
    }
    let q: u128 = if rem * 2 >= mb {
        q0 + 1
    } else {
        q0
    };
    let e0: i64 = a.e as i64 - b.e as i64 - t as i64;
    proof {
        lemma_pow2_127();
        lemma_pow2_strictly_increases(126, 127);
    }
    let sq: i128 = if neg {
        -(q as i128)
    } else {
        q as i128
    };
    let r = norm_dyadic(sq, e0);
    proof {
        if r is None {
            assert(e0 >= -200000 - 200000 - 108);
            assert(e0 <= 400000);
        }
    }
    match r {
        Some(d) => Some(d),
        None => None,
    }
}

// ---------------------------------------------------------------------------
// Conversions between the exact and inexact parts of the tower.
// ---------------------------------------------------------------------------

/// Promotes a machine integer to an inexact number; exact whenever the
/// integer fits the 53-bit mantissa.
pub fn int_to_dyadic(i: i64) -> (r: Dyadic)
    ensures
        dyadic_wf(r),
        r.m == 0 <==> i == 0,
        iabs(i as int) < pow2(53) ==> dy_eq(r.m as int, r.e as int, i as int, 0),
{
    let r = norm_dyadic(i as i128, 0);
    match r {
        Some(d) => d,
        None => {
            proof {
                assert(false);
            }
            Dyadic { m: 0, e: 0 }
        },
    }
}

/// Rounds the exact ratio `p / q` to an inexact number.
pub fn rat_to_dyadic(p: i64, q: i64) -> (r: Dyadic)
    requires
        1 <= q,
    ensures
        dyadic_wf(r),
        r.m == 0 <==> p == 0,
{
    if p == 0 {
        proof {
            lemma_pow2_pos(53);
        }
        return Dyadic { m: 0, e: 0 };
    }
    let neg: bool = p < 0;
    let ma: u128 = if p < 0 {
        (-(p as i128)) as u128
    } else {
        p as u128
    };
    let mq: u128 = q as u128;
    let ba: u32 = bit_length(ma);
    let bq: u32 = bit_length(mq);
    let t: u32 = if 54 + bq > ba {
        54 + bq - ba
    } else {
        0
    };
    proof {
        lemma2_to64();
        lemma2_to64_rest();
        assert(ba >= 1 && bq >= 1);
        assert(ba <= 64 && bq <= 64) by {
            if ba > 64 {
                lemma_pow2_strictly_increases(64, (ba - 1) as nat);
            }
            if bq > 64 {
                lemma_pow2_strictly_increases(64, (bq - 1) as nat);
            }
        };
        lemma_pow2_adds(ba as nat, t as nat);
        lemma_pow2_pos(t as nat);
        assert(ma * pow2(t as nat) < pow2((ba + t) as nat)) by (nonlinear_arith)
            requires
                (ma as int) < pow2(ba as nat) as int,
                pow2(ba as nat) * pow2(t as nat) == pow2((ba + t) as nat),
                pow2(t as nat) >= 1,
                ma >= 1,
        ;
        lemma_pow2_126();
        lemma_pow2_strictly_increases((ba + t) as nat, 126);
        lemma_pow2_127();
        lemma_pow2_strictly_increases(126, 127);
    }
    let pw: u128 = pow2_u128(t);
    let num: u128 = ma * pw;
    let q0: u128 = num / mq;
    let rem: u128 = num % mq;
    proof {
        lemma_mod_division_less_than_divisor(num as int, mq as int);
        lemma_div_pos_is_pos(num as int, mq as int);
        lemma_div_is_ordered_by_denominator(num as int, 1, mq as int);
        lemma_div_basics(num as int);
    }
    let qq: u128 = if rem * 2 >= mq {
        q0 + 1
    } else {
        q0
    };
    proof {
        // the dividend was scaled past the divisor, so the quotient is not zero
        lemma_pow2_adds((ba - 1) as nat, t as nat);
        if t > 0 {
            assert((ba - 1 + t) as nat == (53 + bq) as nat);
            lemma_pow2_adds(53, bq as nat);
            lemma_pow2_pos(53);
            assert(mq < pow2((53 + bq) as nat)) by (nonlinear_arith)
                requires
                    (mq as int) < pow2(bq as nat) as int,
                    pow2(53) * pow2(bq as nat) == pow2((53 + bq) as nat),
                    pow2(53) >= 1,
                    mq >= 1,
                    pow2(bq as nat) >= 1,
            ;
        } else {
            if (bq as nat) < (ba - 1) as nat {
                lemma_pow2_strictly_increases(bq as nat, (ba - 1) as nat);
            }
        }
        assert(num >= pow2((ba - 1 + t) as nat)) by (nonlinear_arith)
            requires
                num == ma * (pow2(t as nat) as int),
                ma >= pow2((ba - 1) as nat),
                pow2((ba - 1) as nat) * pow2(t as nat) == pow2((ba - 1 + t) as nat),
                pow2(t as nat) >= 1,
        ;
        assert(num >= mq);
        lemma_div_non_zero(num as int, mq as int);
    }
    let sq: i128 = if neg {
        -(qq as i128)
    } else {
        qq as i128
    };
    let r = norm_dyadic(sq, -(t as i64));
    match r {
        Some(d) => d,
        None => {
            proof {
                assert(false);
            }
            Dyadic { m: 0, e: 0 }
        },
    }
}

/// Promotes any number to an inexact one.
pub fn number_to_dyadic(n: Number) -> (r: Dyadic)
    requires
        number_wf(n),
    ensures
        dyadic_wf(r),
        n matches Number::Float(d) ==> r == d,
        r.m == 0 <==> val_num(n) == 0,
        n matches Number::Int(i) ==> (iabs(i as int) < pow2(53) ==> dy_eq(
            r.m as int,
            r.e as int,
            i as int,
            0,
        )),
{
    match n {
        Number::Int(i) => int_to_dyadic(i),
        Number::Rational(p, q) => rat_to_dyadic(p, q),
        Number::Float(d) => {
            proof {
                if d.e >= 0 {
                    lemma_pow2_pos(d.e as nat);
                    assert(((d.m as int) * (pow2(d.e as nat) as int) == 0) == (d.m == 0))
                        by (nonlinear_arith)
                        requires
                            pow2(d.e as nat) >= 1,
                    ;
                }
            }
            d
        },
    }
}

/// The exact number equal to an inexact one, when the tower can hold it.
pub fn dyadic_to_exact(d: Dyadic) -> (r: Option<Number>)
    requires
        dyadic_wf(d),
    ensures
        match r {
            Some(n) => {
                &&& number_wf(n)
                &&& is_exact(n)
                &&& val_num(n) * dy_den(d.e as int) == dy_num(d.m as int, d.e as int) * val_den(n)
            },
            None => d.e > 74 || d.e < -62 || iabs(
                dy_num(d.m as int, d.e as int),
            ) >= 0x8000_0000_0000_0000,
        },
{
    if d.m == 0 {
        proof {
            assert(dy_num(0, 0) == 0);
        }
        return Some(Number::Int(0));
    }
    if d.e >= 0 {
        if d.e > 74 {
            return None;
        }
        let pw: u128 = pow2_u128(d.e as u32);
        proof {
            lemma2_to64_rest();
            if (d.e as nat) < 74 {
                lemma_pow2_strictly_increases(d.e as nat, 74);
            }
            lemma_pow2_adds(53, 74);
            lemma_pow2_126();
            lemma_pow2_127();
            lemma_pow2_strictly_increases(127, 128);
            assert(-(pow2(127) as int) < (d.m as int) * (pw as int) < pow2(127) as int)
                by (nonlinear_arith)
                requires
                    -(pow2(53) as int) < d.m as int,
                    (d.m as int) < pow2(53) as int,
                    1 <= pw as int,
                    pw as int <= pow2(74) as int,
                    pow2(53) * pow2(74) == pow2(127),
                    pow2(53) >= 1,
                    pow2(74) >= 1,
            ;
        }
        let mm: i128 = (d.m as i128) * (pw as i128);
        let r = make_rational_wide(mm, 1);
        proof {
            if r is Some {
                let n = r->Some_0;
                assert(val_num(n) * 1 == mm * val_den(n));
                assert(dy_num(d.m as int, d.e as int) == mm);
                assert(dy_den(d.e as int) == 1);
            } else {
                // the ratio mm / 1 is already reduced, so only an oversized
                // numerator can be refused
                lemma_small_mod(0, 1);
                lemma_mod_multiples_basic(iabs(mm as int) as int, 1);
                assert(iabs(mm as int) % 1 == 0);
                assert(gcd(1, 0) == 1);
                assert(gcd(iabs(mm as int), 1) == gcd(1, iabs(mm as int) % 1));
                assert(gcd(iabs(mm as int), 1) == 1);
                lemma_div_basics(iabs(mm as int) as int);
                assert(!reduced_fits(mm as int, 1));
                assert(iabs(mm as int) >= 0x8000_0000_0000_0000);
                assert(dy_num(d.m as int, d.e as int) == mm);
            }
        }
        match r {
            Some(n) => Some(n),
            None => None,
        }
    } else {
        let k: i32 = -d.e;
        if k > 62 {
            return None;
        }
        let pw: u128 = pow2_u128(k as u32);
        proof {
            lemma2_to64_rest();
            if (k as nat) < 62 {
                lemma_pow2_strictly_increases(k as nat, 62);
            }
            lemma_pow2_strictly_increases(62, 63);
            lemma_pow2_strictly_increases(63, 127);
        }
        let r = make_rational_wide(d.m as i128, pw as i128);
        proof {
            if r is Some {
                let n = r->Some_0;
                assert(dy_num(d.m as int, d.e as int) == d.m as int);
                assert(dy_den(d.e as int) == pw as int);
            } else {
                // the reduced parts are no larger than the inputs, which fit
                let g = gcd(iabs(d.m as int), iabs(pw as int)) as int;
                lemma_gcd_pos(iabs(d.m as int), iabs(pw as int));
                lemma_div_is_ordered_by_denominator(iabs(d.m as int) as int, 1, g);
                lemma_div_is_ordered_by_denominator(iabs(pw as int) as int, 1, g);
                lemma_div_basics(iabs(d.m as int) as int);
                lemma_div_basics(iabs(pw as int) as int);
                lemma2_to64_rest();
                assert(false);
            }
        }
        match r {
            Some(n) => Some(n),
            None => None,
        }
    }
}

// ---------------------------------------------------------------------------
// The public operations of the tower.  Mixing an exact and an inexact
// operand promotes to inexact; exact results are always reduced.
// ---------------------------------------------------------------------------

/// The exact numerator and denominator of an exact number.
fn exact_parts(n: Number) -> (r: (i64, i64))
    requires
        number_wf(n),
        is_exact(n),
    ensures
        r.0 == val_num(n),
        r.1 == val_den(n),
        1 <= r.1,
{
    match n {
        Number::Int(i) => (i, 1),
        Number::Rational(p, q) => (p, q),
        Number::Float(_) => (0, 1),
    }
}

proof fn lemma_parts_bounds(an: i64, ad: i64, bn: i64, bd: i64)
    requires
        1 <= ad,
        1 <= bd,
    ensures
        -0x4000_0000_0000_0000_0000_0000_0000_0000 < (an as int) * (bd as int)
            < 0x4000_0000_0000_0000_0000_0000_0000_0000,
        1 <= (ad as int) * (bd as int) < 0x4000_0000_0000_0000_0000_0000_0000_0000,
        -0x4000_0000_0000_0000_0000_0000_0000_0000 < (an as int) * (bn as int)
            <= 0x4000_0000_0000_0000_0000_0000_0000_0000,
{
    assert(-0x4000_0000_0000_0000_0000_0000_0000_0000 < (an as int) * (bd as int)
        < 0x4000_0000_0000_0000_0000_0000_0000_0000) by (nonlinear_arith)
        requires
            -0x8000_0000_0000_0000 <= an <= 0x7fff_ffff_ffff_ffff,
            1 <= bd <= 0x7fff_ffff_ffff_ffff,
    ;
    assert(1 <= (ad as int) * (bd as int) < 0x4000_0000_0000_0000_0000_0000_0000_0000)
        by (nonlinear_arith)
        requires
            1 <= ad <= 0x7fff_ffff_ffff_ffff,
            1 <= bd <= 0x7fff_ffff_ffff_ffff,
    ;
    assert(-0x4000_0000_0000_0000_0000_0000_0000_0000 < (an as int) * (bn as int)
        <= 0x4000_0000_0000_0000_0000_0000_0000_0000) by (nonlinear_arith)
        requires
            -0x8000_0000_0000_0000 <= an <= 0x7fff_ffff_ffff_ffff,
            -0x8000_0000_0000_0000 <= bn <= 0x7fff_ffff_ffff_ffff,
    ;
}

/// Exact operands within a comfortable range, for which the reduced
/// result of any of the four operations always fits the machine.
pub open spec fn small_exacts(a: Number, b: Number) -> bool {
    &&& is_exact(a)
    &&& is_exact(b)
    &&& -0x4000_0000 <= val_num(a) <= 0x4000_0000
    &&& -0x4000_0000 <= val_num(b) <= 0x4000_0000
    &&& val_den(a) <= 0x4000_0000
    &&& val_den(b) <= 0x4000_0000
}

/// Any ratio whose parts are below the `i64` magnitude reduces into range.
pub proof fn lemma_small_reduced_fits(p: int, q: int)
    requires
        q != 0,
        iabs(p) < 0x8000_0000_0000_0000,
        iabs(q) < 0x8000_0000_0000_0000,
    ensures
        reduced_fits(p, q),
{
    let g = gcd(iabs(p), iabs(q)) as int;
    lemma_gcd_pos(iabs(p), iabs(q));
    lemma_div_is_ordered_by_denominator(iabs(p) as int, 1, g);
    lemma_div_is_ordered_by_denominator(iabs(q) as int, 1, g);
    lemma_div_basics(iabs(p) as int);
    lemma_div_basics(iabs(q) as int);
}

/// The cross products of small operands stay far inside the wide range.
proof fn lemma_small_products(an: i64, ad: i64, bn: i64, bd: i64)
    requires
        -0x4000_0000 <= an <= 0x4000_0000,
        -0x4000_0000 <= bn <= 0x4000_0000,
        1 <= ad <= 0x4000_0000,
        1 <= bd <= 0x4000_0000,
    ensures
        -0x1000_0000_0000_0000 <= (an as int) * (bd as int) <= 0x1000_0000_0000_0000,
        -0x1000_0000_0000_0000 <= (bn as int) * (ad as int) <= 0x1000_0000_0000_0000,
        -0x1000_0000_0000_0000 <= (an as int) * (bn as int) <= 0x1000_0000_0000_0000,
        1 <= (ad as int) * (bd as int) <= 0x1000_0000_0000_0000,
        iabs((an as int) * (bd as int)) <= 0x1000_0000_0000_0000,
        iabs((bn as int) * (ad as int)) <= 0x1000_0000_0000_0000,
        iabs((an as int) * (bn as int)) <= 0x1000_0000_0000_0000,
        iabs((ad as int) * (bd as int)) <= 0x1000_0000_0000_0000,
{
    assert(-0x1000_0000_0000_0000 <= (an as int) * (bd as int) <= 0x1000_0000_0000_0000)
        by (nonlinear_arith)
        requires
            -0x4000_0000 <= an <= 0x4000_0000,
            1 <= bd <= 0x4000_0000,
    ;
    assert(-0x1000_0000_0000_0000 <= (bn as int) * (ad as int) <= 0x1000_0000_0000_0000)
        by (nonlinear_arith)
        requires
            -0x4000_0000 <= bn <= 0x4000_0000,
            1 <= ad <= 0x4000_0000,
    ;
    assert(-0x1000_0000_0000_0000 <= (an as int) * (bn as int) <= 0x1000_0000_0000_0000)
        by (nonlinear_arith)
        requires
            -0x4000_0000 <= an <= 0x4000_0000,
            -0x4000_0000 <= bn <= 0x4000_0000,
    ;
    assert(1 <= (ad as int) * (bd as int) <= 0x1000_0000_0000_0000) by (nonlinear_arith)
        requires
            1 <= ad <= 0x4000_0000,
            1 <= bd <= 0x4000_0000,
    ;
}

/// Addition.  Exact operands give the exact reduced sum; an inexact operand
/// makes the result inexact.  `None` is an overflow of the machine range.
pub fn num_add(a: Number, b: Number) -> (r: Option<Number>)
    requires
        number_wf(a),
        number_wf(b),
    ensures
        match r {
            Some(c) => {
                &&& number_wf(c)
                &&& (is_exact(a) && is_exact(b)) ==> (is_exact(c) && val_num(c) * (val_den(a)
                    * val_den(b)) == (val_num(a) * val_den(b) + val_num(b) * val_den(a)) * val_den(
                    c,
                ))
                &&& !(is_exact(a) && is_exact(b)) ==> !is_exact(c)
            },
            None => !small_exacts(a, b),
        },
{
    if is_exact_exec(&a) && is_exact_exec(&b) {
        let (an, ad) = exact_parts(a);
        let (bn, bd) = exact_parts(b);
        proof {
            lemma_parts_bounds(an, ad, bn, bd);
            lemma_parts_bounds(bn, bd, an, ad);
        }
        let t1: i128 = (an as i128) * (bd as i128);
        let t2: i128 = (bn as i128) * (ad as i128);
        proof {
            if small_exacts(a, b) {
                lemma_small_products(an, ad, bn, bd);
            }
        }
        match t1.checked_add(t2) {
            Some(p) => {
                let q: i128 = (ad as i128) * (bd as i128);
                let r = make_rational_wide(p, q);
                proof {
                    if small_exacts(a, b) && r is None {
                        lemma_small_products(an, ad, bn, bd);
                        lemma_small_reduced_fits(p as int, q as int);
                    }
                }
                r
            },
            None => {
                proof {
                    if small_exacts(a, b) {
                        lemma_small_products(an, ad, bn, bd);
                    }
                }
                None
            },
        }
    } else {
        let da = number_to_dyadic(a);
        let db = number_to_dyadic(b);
        match dyadic_add(da, db) {
            Some(d) => Some(Number::Float(d)),
            None => None,
        }
    }
}

/// Subtraction, with the same promotion rules as addition.
pub fn num_sub(a: Number, b: Number) -> (r: Option<Number>)
    requires
        number_wf(a),
        number_wf(b),
    ensures
        match r {
            Some(c) => {
                &&& number_wf(c)
                &&& (is_exact(a) && is_exact(b)) ==> (is_exact(c) && val_num(c) * (val_den(a)
                    * val_den(b)) == (val_num(a) * val_den(b) - val_num(b) * val_den(a)) * val_den(
                    c,
                ))
                &&& !(is_exact(a) && is_exact(b)) ==> !is_exact(c)
            },
            None => !small_exacts(a, b),
        },
{
    if is_exact_exec(&a) && is_exact_exec(&b) {
        let (an, ad) = exact_parts(a);
        let (bn, bd) = exact_parts(b);
        proof {
            lemma_parts_bounds(an, ad, bn, bd);
            lemma_parts_bounds(bn, bd, an, ad);
        }
        let t1: i128 = (an as i128) * (bd as i128);
        let t2: i128 = (bn as i128) * (ad as i128);
        proof {
            if small_exacts(a, b) {
                lemma_small_products(an, ad, bn, bd);
            }
        }
        match t1.checked_sub(t2) {
            Some(p) => {
                let q: i128 = (ad as i128) * (bd as i128);
                let r = make_rational_wide(p, q);
                proof {
                    if small_exacts(a, b) && r is None {
                        lemma_small_products(an, ad, bn, bd);
                        lemma_small_reduced_fits(p as int, q as int);
                    }
                }
                r
            },
            None => {
                proof {
                    if small_exacts(a, b) {
                        lemma_small_products(an, ad, bn, bd);
                    }
                }
                None
            },
        }
    } else {
        let da = number_to_dyadic(a);
        let db = number_to_dyadic(b);
        match dyadic_add(da, dyadic_neg(db)) {
            Some(d) => Some(Number::Float(d)),
            None => None,
        }
    }
}

/// Multiplication, with the same promotion rules.
pub fn num_mul(a: Number, b: Number) -> (r: Option<Number>)
    requires
        number_wf(a),
        number_wf(b),
    ensures
        match r {
            Some(c) => {
                &&& number_wf(c)
                &&& (is_exact(a) && is_exact(b)) ==> (is_exact(c) && val_num(c) * (val_den(a)
                    * val_den(b)) == (val_num(a) * val_num(b)) * val_den(c))
                &&& !(is_exact(a) && is_exact(b)) ==> !is_exact(c)
            },
            None => !small_exacts(a, b),
        },
{
    if is_exact_exec(&a) && is_exact_exec(&b) {
        let (an, ad) = exact_parts(a);
        let (bn, bd) = exact_parts(b);
        proof {
            lemma_parts_bounds(an, ad, bn, bd);
        }
        let p: i128 = (an as i128) * (bn as i128);
        let q: i128 = (ad as i128) * (bd as i128);
        let r = make_rational_wide(p, q);
        proof {
            if small_exacts(a, b) && r is None {
                lemma_small_products(an, ad, bn, bd);
                lemma_small_reduced_fits(p as int, q as int);
            }
        }
        r
    } else {
        let da = number_to_dyadic(a);
        let db = number_to_dyadic(b);
        match dyadic_mul(da, db) {
            Some(d) => Some(Number::Float(d)),
            None => None,
        }
    }
}

/// Whether the value of `n` is zero.
pub fn num_is_zero(n: &Number) -> (r: bool)
    requires
        number_wf(*n),
    ensures
        r == (val_num(*n) == 0),
{
    match n {
        Number::Int(i) => *i == 0,
        Number::Rational(_, _) => false,
        Number::Float(d) => {
            proof {
                if d.e >= 0 {
                    lemma_pow2_pos(d.e as nat);
                    assert(((d.m as int) * (pow2(d.e as nat) as int) == 0) == (d.m == 0))
                        by (nonlinear_arith)
                        requires
                            pow2(d.e as nat) >= 1,
                    ;
                }
            }
            d.m == 0
        },
    }
}

/// Division.  The divisor must not be zero; exactness follows the operands.
pub fn num_div(a: Number, b: Number) -> (r: Option<Number>)
    requires
        number_wf(a),
        number_wf(b),
        val_num(b) != 0,
    ensures
        match r {
            Some(c) => {
                &&& number_wf(c)
                &&& (is_exact(a) && is_exact(b)) ==> (is_exact(c) && val_num(c) * (val_den(a)
                    * val_num(b)) == (val_num(a) * val_den(b)) * val_den(c))
                &&& !(is_exact(a) && is_exact(b)) ==> !is_exact(c)
            },
            None => !small_exacts(a, b),
        },
{
    if is_exact_exec(&a) && is_exact_exec(&b) {
        let (an, ad) = exact_parts(a);
        let (bn, bd) = exact_parts(b);
        proof {
            lemma_parts_bounds(an, ad, bn, bd);
            lemma_parts_bounds(ad, 1, bn, 1);
            assert((ad as int) * (bn as int) != 0) by (nonlinear_arith)
                requires
                    ad >= 1,
                    bn != 0,
            ;
        }
        let p: i128 = (an as i128) * (bd as i128);
        let q: i128 = (ad as i128) * (bn as i128);
        let r = make_rational_wide(p, q);
        proof {
            if small_exacts(a, b) && r is None {
                lemma_small_products(an, ad, bn, bd);
                lemma_small_products(an, ad, bn, 1);
                lemma_small_reduced_fits(p as int, q as int);
            }
        }
        r
    } else {
        let da = number_to_dyadic(a);
        let db = number_to_dyadic(b);
        match dyadic_div(da, db) {
            Some(d) => Some(Number::Float(d)),
            None => None,
        }
    }
}

/// Whether `n` is exact, as runnable code.
pub fn is_exact_exec(n: &Number) -> (r: bool)
    ensures
        r == is_exact(*n),
{
    match n {
        Number::Float(_) => false,
        _ => true,
    }
}

pub proof fn lemma_dy_num_neg(m: int, e: int)
    ensures
        dy_num(-m, e) == -dy_num(m, e),
{
    if e >= 0 {
        assert((-m) * pow2(e as nat) as int == -(m * pow2(e as nat) as int)) by (nonlinear_arith);
    }
}

/// Negation.  `None` only at the very edge of the machine range.
pub fn num_neg(a: Number) -> (r: Option<Number>)
    requires
        number_wf(a),
    ensures
        match r {
            Some(c) => {
                &&& number_wf(c)
                &&& is_exact(c) == is_exact(a)
                &&& val_num(c) * val_den(a) == -val_num(a) * val_den(c)
            },
            None => val_num(a) == i64::MIN,
        },
{
    match a {
        Number::Int(i) => if i == i64::MIN {
            None
        } else {
            Some(Number::Int(-i))
        },
        Number::Rational(p, q) => if p == i64::MIN {
            None
        } else {
            let v: i64 = -p;
            {
                proof {
                    lemma_mod_add_multiples_vanish(-(p as int), 2);
                    assert(iabs(v as int) == iabs(p as int));
                    assert((v as int) * (q as int) == -((p as int)) * (q as int))
                        by (nonlinear_arith)
                        requires
                            v == -(p as int),
                    ;
                }
                Some(Number::Rational(v, q))
            }
        },
        Number::Float(d) => {
            let nd = dyadic_neg(d);
            proof {
                lemma_dy_num_neg(d.m as int, d.e as int);
                assert(dy_num(nd.m as int, nd.e as int) * dy_den(d.e as int) == -dy_num(
                    d.m as int,
                    d.e as int,
                ) * dy_den(nd.e as int)) by (nonlinear_arith)
                    requires
                        dy_num(nd.m as int, nd.e as int) == -dy_num(d.m as int, d.e as int),
                        dy_den(nd.e as int) == dy_den(d.e as int),
                ;
            }
            Some(Number::Float(nd))
        },
    }
}

/// The sign of the value of `n`: `-1`, `0` or `1`.
pub fn num_sign(n: &Number) -> (r: i8)
    requires
        number_wf(*n),
    ensures
        (r == -1 <==> val_num(*n) < 0),
        (r == 0 <==> val_num(*n) == 0),
        (r == 1 <==> val_num(*n) > 0),
{
    match n {
        Number::Int(i) => {
            if *i < 0 {
                -1
            } else if *i == 0 {
                0
            } else {
                1
            }
        },
        Number::Rational(p, _) => {
            if *p < 0 {
                -1
            } else {
                1
            }
        },
        Number::Float(d) => {
            proof {
                if d.e >= 0 {
                    lemma_pow2_pos(d.e as nat);
                    assert((((d.m as int) * (pow2(d.e as nat) as int)) < 0 <==> d.m < 0) && (((
                    d.m as int) * (pow2(d.e as nat) as int)) == 0 <==> d.m == 0))
                        by (nonlinear_arith)
                        requires
                            pow2(d.e as nat) >= 1,
                    ;
                }
            }
            if d.m < 0 {
                -1
            } else if d.m == 0 {
                0
            } else {
                1
            }
        },
    }
}

/// Exact three-way comparison.  Exact pairs and inexact pairs compare by
/// value; a mixed pair is compared after promotion, which is exact whenever
/// the exact side is an integer within the 53-bit mantissa.
pub fn num_cmp(a: &Number, b: &Number) -> (r: i8)
    requires
        number_wf(*a),
        number_wf(*b),
    ensures
        -1 <= r <= 1,
        (is_exact(*a) == is_exact(*b)) ==> {
            &&& (r == -1 <==> val_num(*a) * val_den(*b) < val_num(*b) * val_den(*a))
            &&& (r == 0 <==> val_num(*a) * val_den(*b) == val_num(*b) * val_den(*a))
            &&& (r == 1 <==> val_num(*a) * val_den(*b) > val_num(*b) * val_den(*a))
        },
        ((*a) matches Number::Int(i) && (b is Float) && iabs(i as int) < pow2(53)) ==> {
            &&& (r == -1 <==> val_num(*a) * val_den(*b) < val_num(*b) * val_den(*a))
            &&& (r == 0 <==> val_num(*a) * val_den(*b) == val_num(*b) * val_den(*a))
            &&& (r == 1 <==> val_num(*a) * val_den(*b) > val_num(*b) * val_den(*a))
        },
        ((*b) matches Number::Int(i) && (a is Float) && iabs(i as int) < pow2(53)) ==> {
            &&& (r == -1 <==> val_num(*a) * val_den(*b) < val_num(*b) * val_den(*a))
            &&& (r == 0 <==> val_num(*a) * val_den(*b) == val_num(*b) * val_den(*a))
            &&& (r == 1 <==> val_num(*a) * val_den(*b) > val_num(*b) * val_den(*a))
        },
{
    if is_exact_exec(a) && is_exact_exec(b) {
        let (an, ad) = exact_parts(*a);
        let (bn, bd) = exact_parts(*b);
        proof {
            lemma_parts_bounds(an, ad, bn, bd);
            lemma_parts_bounds(bn, bd, an, ad);
        }
        let t1: i128 = (an as i128) * (bd as i128);
        let t2: i128 = (bn as i128) * (ad as i128);
        if t1 < t2 {
            -1
        } else if t1 == t2 {
            0
        } else {
            1
        }
    } else {
        let da = number_to_dyadic(*a);
        let db = number_to_dyadic(*b);
        let r = dyadic_cmp(da, db);
        proof {
            if (a is Float) && (b is Float) {
                assert(val_num(*a) == dy_num(da.m as int, da.e as int));
                assert(val_den(*a) == dy_den(da.e as int));
                assert(val_num(*b) == dy_num(db.m as int, db.e as int));
                assert(val_den(*b) == dy_den(db.e as int));
            }
            lemma2_to64();
            if b is Float {
                match *a {
                    Number::Int(i) => {
                        if iabs(i as int) < pow2(53) {
                            // the promotion of a small integer is exact
                            lemma_dy_subst_left(
                                da.m as int,
                                da.e as int,
                                i as int,
                                0,
                                db.m as int,
                                db.e as int,
                            );
                            assert(dy_num(i as int, 0) == i * (pow2(0) as int));
                            assert(i * (pow2(0) as int) == i) by (nonlinear_arith)
                                requires
                                    pow2(0) == 1,
                            ;
                            assert(dy_den(0int) == 1);
                            assert(val_num(*b) * 1 == val_num(*b)) by (nonlinear_arith);
                            assert(val_num(*a) * val_den(*b) == dy_num(i as int, 0) * dy_den(
                                db.e as int,
                            ));
                        }
                    },
                    _ => {},
                }
            }
            if a is Float {
                match *b {
                    Number::Int(i) => {
                        if iabs(i as int) < pow2(53) {
                            lemma_dy_subst_left(
                                db.m as int,
                                db.e as int,
                                i as int,
                                0,
                                da.m as int,
                                da.e as int,
                            );
                            assert(dy_num(i as int, 0) == i * (pow2(0) as int));
                            assert(i * (pow2(0) as int) == i) by (nonlinear_arith)
                                requires
                                    pow2(0) == 1,
                            ;
                            assert(dy_den(0int) == 1);
                            assert(val_num(*a) * 1 == val_num(*a)) by (nonlinear_arith);
                            assert(val_num(*b) * val_den(*a) == dy_num(i as int, 0) * dy_den(
                                da.e as int,
                            ));
                        }
                    },
                    _ => {},
                }
            }
        }
        r
    }
}

/// Truncating division with remainder on exact integers.
/// The remainder takes the sign of the dividend.
pub fn int_divmod(a: i64, b: i64) -> (r: Option<(i64, i64)>)
    requires
        b != 0,
    ensures
        match r {
            Some(qr) => {
                &&& a == qr.0 * b + qr.1
                &&& iabs(qr.1 as int) < iabs(b as int)
                &&& (qr.1 == 0 || ((qr.1 < 0) == (a < 0)))
            },
            None => a == i64::MIN && b == -1,
        },
{
    if a == i64::MIN && b == -1 {
        return None;
    }
    let ma: u64 = abs_u64(a);
    let mb: u64 = abs_u64(b);
    let qm: u64 = ma / mb;
    let rm: u64 = ma % mb;
    proof {
        lemma_fundamental_div_mod(ma as int, mb as int);
        lemma_mod_division_less_than_divisor(ma as int, mb as int);
        lemma_div_pos_is_pos(ma as int, mb as int);
        lemma_div_is_ordered_by_denominator(ma as int, 1, mb as int);
        lemma_div_basics(ma as int);
    }
    let neg_q: bool = (a < 0) != (b < 0);
    let qv: i64 = if neg_q {
        (-(qm as i128)) as i64
    } else {
        if qm >= 0x8000_0000_0000_0000u64 {
            proof {
                assert(false) by (nonlinear_arith)
                    requires
                        ma == mb * qm + rm,
                        0 <= rm,
                        (rm as int) < mb,
                        iabs(a as int) == ma,
                        iabs(b as int) == mb,
                        ma <= 0x8000_0000_0000_0000u64,
                        qm >= 0x8000_0000_0000_0000u64,
                        mb >= 1,
                        !((a < 0) != (b < 0)),
                        !(a == i64::MIN && b == -1),
                        -0x8000_0000_0000_0000 <= a <= 0x7fff_ffff_ffff_ffff,
                        -0x8000_0000_0000_0000 <= b <= 0x7fff_ffff_ffff_ffff,
                        b != 0,
                ;
            }
            return None;
        }
        qm as i64
    };
    let rv: i64 = if a < 0 {
        (-(rm as i128)) as i64
    } else {
        rm as i64
    };
    proof {
        if neg_q {
            assert(qv as int == -(qm as int));
        } else {
            assert(qv as int == qm as int);
        }
        if a < 0 {
            assert(rv as int == -(rm as int));
        } else {
            assert(rv as int == rm as int);
        }
        assert(a == qv * b + rv) by (nonlinear_arith)
            requires
                ma == mb * qm + rm,
                (a < 0 ==> ma == -(a as int)),
                (a >= 0 ==> ma == a as int),
                (b < 0 ==> mb == -(b as int)),
                (b >= 0 ==> mb == b as int),
                (neg_q ==> qv as int == -(qm as int)),
                (!neg_q ==> qv as int == qm as int),
                (a < 0 ==> rv as int == -(rm as int)),
                (a >= 0 ==> rv as int == rm as int),
                neg_q == ((a < 0) != (b < 0)),
                b != 0,
        ;
    }
    Some((qv, rv))
}

/// Flooring modulus on exact integers: the result takes the sign of the
/// divisor.
pub fn int_modulo(a: i64, b: i64) -> (r: Option<i64>)
    requires
        b != 0,
    ensures
        match r {
            Some(m) => {
                &&& iabs(m as int) < iabs(b as int)
                &&& (m == 0 || ((m < 0) == (b < 0)))
                &&& exists|k: int| a == #[trigger] (k * b) + m
            },
            None => a == i64::MIN && b == -1,
        },
{
    match int_divmod(a, b) {
        Some((q, r)) => {
            if r != 0 && ((r < 0) != (b < 0)) {
                let m: i64 = r + b;
                proof {
                    assert(a == (q - 1) * b + m) by (nonlinear_arith)
                        requires
                            a == q * b + r,
                            m == r + b,
                    ;
                }
                Some(m)
            } else {
                proof {
                    assert(a == q * b + r);
                }
                Some(r)
            }
        },
        None => None,
    }
}

/// Absolute value of an exact number.
fn exact_abs(n: Number) -> (r: Option<Number>)
    requires
        number_wf(n),
        is_exact(n),
    ensures
        match r {
            Some(c) => {
                &&& number_wf(c)
                &&& is_exact(c)
                &&& val_num(c) * val_den(n) == iabs(val_num(n)) * val_den(c)
            },
            None => val_num(n) == i64::MIN,
        },
{
    let (p, q) = exact_parts(n);
    let pa: i128 = if p < 0 {
        -(p as i128)
    } else {
        p as i128
    };
    let r = make_rational_wide(pa, q as i128);
    proof {
        if r is None {
            // only an |MIN| numerator can fail to reduce into range
            let g = gcd(iabs(pa as int), iabs(q as int)) as int;
            lemma_gcd_pos(iabs(pa as int), iabs(q as int));
            lemma_div_is_ordered_by_denominator(iabs(pa as int) as int, 1, g);
            lemma_div_is_ordered_by_denominator(iabs(q as int) as int, 1, g);
            lemma_div_basics(iabs(pa as int) as int);
            lemma_div_basics(iabs(q as int) as int);
        }
    }
    r
}

/// Absolute value.  The result is always exact: an inexact argument is
/// first converted to its exact equal.
pub fn num_abs(n: Number) -> (r: Option<Number>)
    requires
        number_wf(n),
    ensures
        match r {
            Some(c) => {
                &&& number_wf(c)
                &&& is_exact(c)
                &&& val_num(c) * val_den(n) == iabs(val_num(n)) * val_den(c)
            },
            None => !is_exact(n) || val_num(n) == i64::MIN,
        },
{
    if is_exact_exec(&n) {
        exact_abs(n)
    } else {
        match n {
            Number::Float(d) => {
                match dyadic_to_exact(d) {
                    Some(x) => {
                        let r = exact_abs(x);
                        proof {
                            if r is Some {
                                let c = r->Some_0;
                                lemma_dy_den_pos(d.e as int);
                                assert(val_den(x) >= 1);
                                assert(val_den(c) >= 1) by {
                                    match c {
                                        Number::Int(_) => {},
                                        Number::Rational(_, _) => {},
                                        Number::Float(_) => {},
                                    }
                                };
                                assert(iabs(val_num(x)) * dy_den(d.e as int) == iabs(dy_num(
                                    d.m as int,
                                    d.e as int,
                                )) * val_den(x)) by (nonlinear_arith)
                                    requires
                                        val_num(x) * dy_den(d.e as int) == dy_num(
                                            d.m as int,
                                            d.e as int,
                                        ) * val_den(x),
                                        val_den(x) >= 1,
                                        dy_den(d.e as int) >= 1,
                                ;
                                assert(val_num(c) * dy_den(d.e as int) == iabs(dy_num(
                                    d.m as int,
                                    d.e as int,
                                )) * val_den(c)) by (nonlinear_arith)
                                    requires
                                        val_num(c) * val_den(x) == iabs(val_num(x)) * val_den(c),
                                        iabs(val_num(x)) * dy_den(d.e as int) == iabs(dy_num(
                                            d.m as int,
                                            d.e as int,
                                        )) * val_den(x),
                                        val_den(x) >= 1,
                                        dy_den(d.e as int) >= 1,
                                        val_den(c) >= 1,
                                ;
                            }
                        }
                        r
                    },
                    None => None,
                }
            },
            _ => None,
        }
    }
}

/// Conversion to inexact; the identity on an already inexact number.
pub fn num_exact_to_inexact(n: Number) -> (r: Number)
    requires
        number_wf(n),
    ensures
        number_wf(r),
        !is_exact(r),
        n is Float ==> r == n,
        n matches Number::Int(i) ==> (iabs(i as int) < pow2(53) ==> (r matches Number::Float(d)
            && dy_eq(d.m as int, d.e as int, i as int, 0))),
{
    match n {
        Number::Float(d) => Number::Float(d),
        _ => Number::Float(number_to_dyadic(n)),
    }
}

/// Conversion to exact; the identity on an already exact number.  `None`
/// when the machine range cannot hold the exact equal.
pub fn num_inexact_to_exact(n: Number) -> (r: Option<Number>)
    requires
        number_wf(n),
    ensures
        match r {
            Some(c) => {
                &&& number_wf(c)
                &&& is_exact(c)
                &&& val_num(c) * val_den(n) == val_num(n) * val_den(c)
            },
            None => n is Float,
        },
{
    match n {
        Number::Float(d) => {
            match dyadic_to_exact(d) {
                Some(c) => Some(c),
                None => None,
            }
        },
        _ => {
            proof {
                assert(val_num(n) * val_den(n) == val_num(n) * val_den(n));
            }
            Some(n)
        },
    }
}

/// Structural equality: two well-formed numbers are equal exactly when they
/// are the same kind with the same canonical parts.
pub fn num_eq(a: &Number, b: &Number) -> (r: bool)
    ensures
        r == (a == b),
{
    match (a, b) {
        (Number::Int(x), Number::Int(y)) => x == y,
        (Number::Rational(p1, q1), Number::Rational(p2, q2)) => p1 == p2 && q1 == q2,
        (Number::Float(d1), Number::Float(d2)) => d1.m == d2.m && d1.e == d2.e,
        _ => false,
    }
}

/// The machine integer held by an exact integer.
pub fn as_int(n: &Number) -> (r: Option<i64>)
    ensures
        match r {
            Some(i) => *n == Number::Int(i),
            None => !(n is Int),
        },
{
    match n {
        Number::Int(i) => Some(*i),
        _ => None,
    }
}

} // verus!
