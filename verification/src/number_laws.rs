//! That the patterns mean the numbers they are taken for: a greater ordinal
//! is a greater number, and the conversions keep the number.
use crate::ieee::{normalized, Double, Single, COUNT_LIMIT, DOUBLE_HIDDEN, SINGLE_HIDDEN};
use vstd::arithmetic::div_mod::lemma_fundamental_div_mod_converse;
use vstd::arithmetic::power2::{
    lemma2_to64, lemma2_to64_rest, lemma_pow2_adds, lemma_pow2_pos, lemma_pow2_strictly_increases,
    lemma_pow2_unfold, pow2,
};
use vstd::prelude::*;

verus! {

/// Whatever ranks at least as high as another value is not less than it: in a
/// sequence that descends by rank no value is followed by a greater one.
pub proof fn law_rank_descends(a: Double, b: Double)
    requires
        a.rank() >= b.rank(),
    ensures
        !a.spec_lt(b),
        !a.spec_is_nan() && !b.spec_is_nan() ==> a.ordinal() >= b.ordinal(),
{
}

/// Normalising keeps the number: the significand that comes out is the one
/// that went in, times the power of two by which the exponent went down. It
/// has its leading bit at position 52.
proof fn lemma_normalized(m: nat, e: int)
    requires
        0 < m < COUNT_LIMIT,
    ensures
        ({
            let (significand, exponent) = normalized(m, e);
            &&& DOUBLE_HIDDEN <= significand < COUNT_LIMIT
            &&& e - 52 <= exponent <= e
            &&& significand == m * pow2((e - exponent) as nat)
        }),
    decreases
        (if m >= DOUBLE_HIDDEN {
            0
        } else {
            DOUBLE_HIDDEN - m
        }),
{
    lemma2_to64();
    lemma2_to64_rest();
    if m < DOUBLE_HIDDEN {
        lemma_normalized(2 * m, e - 1);
        let (significand, exponent) = normalized(2 * m, e - 1);
        assert(normalized(m, e) == (significand, exponent));
        let k = (e - 1 - exponent) as nat;
        lemma_pow2_unfold(k + 1);
        assert(2 * m * pow2(k) == m * (2 * pow2(k))) by (nonlinear_arith);
        assert(significand == m * pow2(k + 1));
        if k + 1 > 52 {
            if k + 1 > 53 {
                lemma_pow2_strictly_increases(53, k + 1);
            }
            assert(m * pow2(k + 1) >= pow2(k + 1)) by (nonlinear_arith)
                requires
                    m >= 1,
            ;
            assert(false);
        }
        assert((e - exponent) as nat == k + 1);
    } else {
        assert(normalized(m, e) == (m, e));
        assert(m * pow2(0) == m) by (nonlinear_arith)
            requires
                pow2(0) == 1,
        ;
    }
}

/// `Double::of_scaled(m, e)` is a finite value without a sign, whose
/// significand and exponent spell out the number `m * 2^e`.
pub proof fn lemma_of_scaled(m: nat, e: int)
    requires
        m < COUNT_LIMIT,
        -1022 <= e <= 900,
    ensures
        !Double::of_scaled(m, e).sign(),
        Double::of_scaled(m, e).is_finite(),
        m == 0 ==> Double::of_scaled(m, e).significand() == 0,
        m > 0 ==> Double::of_scaled(m, e).exponent() <= e && Double::of_scaled(m, e).significand()
            == m * pow2((e - Double::of_scaled(m, e).exponent()) as nat),
{
    if m > 0 {
        lemma_normalized(m, e);
        let (significand, exponent) = normalized(m, e);
        let r = Double::of_scaled(m, e);
        let field = exponent + 1075;
        let rest = significand - DOUBLE_HIDDEN;
        assert(r.bits == field * DOUBLE_HIDDEN + rest);
        assert(r.magnitude() / (DOUBLE_HIDDEN as nat) == field && r.magnitude() % (
        DOUBLE_HIDDEN as nat) == rest) by {
            lemma_fundamental_div_mod_converse(
                r.magnitude() as int,
                DOUBLE_HIDDEN as int,
                field,
                rest,
            );
        }
    }
}

proof fn lemma_weights_grow(
    field_a: nat,
    rest_a: nat,
    field_b: nat,
    rest_b: nat,
    hidden: nat,
)
    requires
        hidden > 0,
        rest_a < hidden,
        rest_b < hidden,
        field_a < field_b || (field_a == field_b && rest_a < rest_b),
    ensures
        (if field_a == 0 {
            rest_a
        } else {
            (hidden + rest_a) * pow2((field_a - 1) as nat)
        }) < (if field_b == 0 {
            rest_b
        } else {
            (hidden + rest_b) * pow2((field_b - 1) as nat)
        }),
{
    if field_a == field_b {
        if field_a > 0 {
            let p = pow2((field_a - 1) as nat);
            lemma_pow2_pos((field_a - 1) as nat);
            assert((hidden + rest_a) * p < (hidden + rest_b) * p) by (nonlinear_arith)
                requires
                    rest_a < rest_b,
                    p > 0,
            ;
        }
    } else {
        let q = pow2((field_b - 1) as nat);
        lemma_pow2_pos((field_b - 1) as nat);
        if field_a == 0 {
            assert((hidden + rest_b) * q >= hidden) by (nonlinear_arith)
                requires
                    q > 0,
                    hidden > 0,
            ;
        } else {
            let p = pow2((field_a - 1) as nat);
            lemma_pow2_pos((field_a - 1) as nat);
            lemma_pow2_unfold(field_a);
            if field_a < field_b - 1 {
                lemma_pow2_strictly_increases(field_a, (field_b - 1) as nat);
            }
            assert(2 * p <= q);
            assert((hidden + rest_a) * p < (hidden + rest_b) * q) by (nonlinear_arith)
                requires
                    rest_a < hidden,
                    2 * p <= q,
                    p > 0,
                    hidden > 0,
            ;
        }
    }
}

/// Of two finite binary64 values, the one with the greater magnitude is the
/// one of greater weight.
pub proof fn lemma_double_weight_grows(a: Double, b: Double)
    requires
        a.is_finite(),
        b.is_finite(),
        a.magnitude() < b.magnitude(),
    ensures
        a.weight() < b.weight(),
{
    let h = DOUBLE_HIDDEN as nat;
    lemma2_to64();
    lemma_weights_grow(a.magnitude() / h, a.magnitude() % h, b.magnitude() / h, b.magnitude() % h, h);
    assert(pow2(0) == 1);
    assert(a.magnitude() < h ==> a.weight() == a.magnitude() % h) by (nonlinear_arith)
        requires
            a.magnitude() < h ==> a.weight() == a.magnitude() * pow2(0),
            pow2(0) == 1,
            h > 0,
    ;
    assert(b.magnitude() < h ==> b.weight() == b.magnitude() % h) by (nonlinear_arith)
        requires
            b.magnitude() < h ==> b.weight() == b.magnitude() * pow2(0),
            pow2(0) == 1,
            h > 0,
    ;
}

/// Of two finite binary32 values, the one with the greater magnitude is the
/// one of greater weight.
pub proof fn lemma_single_weight_grows(a: Single, b: Single)
    requires
        a.is_finite(),
        b.is_finite(),
        a.magnitude() < b.magnitude(),
    ensures
        a.weight() < b.weight(),
{
    let h = SINGLE_HIDDEN as nat;
    lemma2_to64();
    lemma_weights_grow(a.magnitude() / h, a.magnitude() % h, b.magnitude() / h, b.magnitude() % h, h);
    assert(pow2(0) == 1);
    assert(a.magnitude() < h ==> a.weight() == a.magnitude() % h) by (nonlinear_arith)
        requires
            a.magnitude() < h ==> a.weight() == a.magnitude() * pow2(0),
            pow2(0) == 1,
            h > 0,
    ;
    assert(b.magnitude() < h ==> b.weight() == b.magnitude() % h) by (nonlinear_arith)
        requires
            b.magnitude() < h ==> b.weight() == b.magnitude() * pow2(0),
            pow2(0) == 1,
            h > 0,
    ;
}

/// The ordinal orders finite binary64 values as numbers: a value has the
/// smaller ordinal exactly when it is the smaller number, and the same
/// ordinal exactly when it is the same number.
pub proof fn law_double_ordinal_orders_numbers(a: Double, b: Double)
    requires
        a.is_finite(),
        b.is_finite(),
    ensures
        a.ordinal() < b.ordinal() <==> a.scaled() < b.scaled(),
        a.ordinal() == b.ordinal() <==> a.scaled() == b.scaled(),
{
    let zero = Double { bits: 0 };
    assert(zero.weight() == 0) by (nonlinear_arith)
        requires
            zero.weight() == 0 * pow2(0),
    ;
    if a.magnitude() > 0 {
        lemma_double_weight_grows(zero, Double { bits: a.magnitude() as u64 });
    }
    if b.magnitude() > 0 {
        lemma_double_weight_grows(zero, Double { bits: b.magnitude() as u64 });
    }
    if a.magnitude() < b.magnitude() {
        lemma_double_weight_grows(a, b);
    } else if b.magnitude() < a.magnitude() {
        lemma_double_weight_grows(b, a);
    }
}

/// The ordinal orders finite binary32 values as numbers: a value has the
/// smaller ordinal exactly when it is the smaller number, and the same
/// ordinal exactly when it is the same number.
pub proof fn law_single_ordinal_orders_numbers(a: Single, b: Single)
    requires
        a.is_finite(),
        b.is_finite(),
    ensures
        a.ordinal() < b.ordinal() <==> a.scaled() < b.scaled(),
        a.ordinal() == b.ordinal() <==> a.scaled() == b.scaled(),
{
    let zero = Single { bits: 0 };
    assert(zero.weight() == 0) by (nonlinear_arith)
        requires
            zero.weight() == 0 * pow2(0),
    ;
    if a.magnitude() > 0 {
        lemma_single_weight_grows(zero, Single { bits: a.magnitude() as u32 });
    }
    if b.magnitude() > 0 {
        lemma_single_weight_grows(zero, Single { bits: b.magnitude() as u32 });
    }
    if a.magnitude() < b.magnitude() {
        lemma_single_weight_grows(a, b);
    } else if b.magnitude() < a.magnitude() {
        lemma_single_weight_grows(b, a);
    }
}

/// `Double::of_scaled(m, e)` weighs what the number `m * 2^e` weighs.
pub proof fn law_of_scaled_weight(m: nat, e: int)
    requires
        m < COUNT_LIMIT,
        -1022 <= e <= 900,
    ensures
        Double::of_scaled(m, e).weight() == m * pow2((e + 1074) as nat),
        Double::of_scaled(m, e).scaled() == m * pow2((e + 1074) as nat),
{
    lemma_of_scaled(m, e);
    let r = Double::of_scaled(m, e);
    if m == 0 {
        assert(r.weight() == 0 && m * pow2((e + 1074) as nat) == 0) by (nonlinear_arith)
            requires
                r.weight() == r.significand() * pow2((r.exponent() + 1074) as nat),
                r.significand() == 0,
                m == 0,
        ;
    } else {
        let down = (e - r.exponent()) as nat;
        let base = (r.exponent() + 1074) as nat;
        lemma_pow2_adds(down, base);
        assert(m * pow2(down) * pow2(base) == m * (pow2(down) * pow2(base))) by (nonlinear_arith);
    }
}

/// A count converts to the binary64 value that is that number.
pub proof fn law_of_count_is_the_count(n: nat)
    requires
        n < COUNT_LIMIT,
    ensures
        Double::of_count(n).is_finite(),
        Double::of_count(n).scaled() == n * pow2(1074),
{
    lemma_of_scaled(n, 0);
    law_of_scaled_weight(n, 0);
}

/// Widening keeps the number: a finite binary32 value and its binary64 value
/// are the same number, told in the units of the one and of the other, which
/// are 2^925 apart; an infinity stays an infinity; the sign stays.
pub proof fn law_widened_is_the_same_number(s: Single)
    requires
        !s.spec_is_nan(),
    ensures
        s.widened().sign() == s.sign(),
        !s.widened().spec_is_nan(),
        s.widened().is_finite() == s.is_finite(),
        s.is_finite() ==> s.widened().scaled() == s.scaled() * pow2(925),
{
    if s.is_finite() {
        lemma_of_scaled(s.significand(), s.exponent());
        law_of_scaled_weight(s.significand(), s.exponent());
        let up = (s.exponent() + 149) as nat;
        lemma_pow2_adds(up, 925);
        let body = Double::of_scaled(s.significand(), s.exponent());
        assert(s.widened().magnitude() == body.bits);
        assert(s.widened().weight() == body.weight());
        assert(s.significand() * (pow2(up) * pow2(925)) == s.significand() * pow2(up) * pow2(925))
            by (nonlinear_arith);
        assert(s.widened().weight() == s.weight() * pow2(925));
        assert((-(s.weight() as int)) * pow2(925) == -(s.weight() * pow2(925))) by (nonlinear_arith);
    }
}

/// Widening keeps the order: of two binary32 numbers, the smaller one widens
/// to the smaller binary64 number.
pub proof fn law_widening_keeps_order(a: Single, b: Single)
    requires
        !a.spec_is_nan(),
        !b.spec_is_nan(),
    ensures
        a.spec_lt(b) <==> a.widened().spec_lt(b.widened()),
{
    law_widened_is_the_same_number(a);
    law_widened_is_the_same_number(b);
    lemma_pow2_pos(925);
    let p = pow2(925) as int;
    if a.is_finite() && b.is_finite() {
        law_single_ordinal_orders_numbers(a, b);
        law_double_ordinal_orders_numbers(a.widened(), b.widened());
        let x = a.scaled();
        let y = b.scaled();
        assert(x < y <==> x * p < y * p) by (nonlinear_arith)
            requires
                p > 0,
        ;
    }
}

} // verus!
