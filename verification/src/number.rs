//! Calculator values and arithmetic.
//!
//! A value is a sign-magnitude fixed-point decimal: a mantissa in units
//! of `10^-10` with magnitude at most `MAX_MAG`.  Addition and
//! subtraction are exact; multiplication and division round the true
//! result to the nearest representable mantissa, ties away from zero.
//! A result out of range, and any division by zero, is the overflow
//! outcome `None`, which the state machine turns into the error marker.

use vstd::prelude::*;

verus! {

use crate::numeral::{SCALE_U, HALF_SCALE_U, MAX_MAG, signed_mantissa, mag_of};

/// A binary operator of the calculator.
#[derive(Clone, Copy, PartialEq, Eq, Structural, Debug)]
pub enum Operator {
    Add,
    Subtract,
    Multiply,
    Divide,
}

/// A calculator value, held as a sign and a mantissa magnitude.
#[derive(Clone, Copy, Debug)]
pub struct Number {
    pub negative: bool,
    pub magnitude: u128,
}

impl Number {
    /// The mantissa this value stands for.
    pub open spec fn m(self) -> int {
        signed_mantissa(self.negative, self.magnitude as nat)
    }

    /// Well-formed: in range, and only nonzero values carry a sign.
    pub open spec fn wf(self) -> bool {
        &&& self.magnitude <= MAX_MAG
        &&& self.negative ==> self.magnitude > 0
    }

    /// The zero value.
    pub fn zero() -> (r: Number)
        ensures
            r.wf(),
            r.m() == 0,
    {
        Number { negative: false, magnitude: 0 }
    }

    /// The same value with its sign flipped (zero stays zero).
    pub fn negated(&self) -> (r: Number)
        requires
            self.wf(),
        ensures
            r.wf(),
            r.m() == -self.m(),
    {
        if self.magnitude == 0 {
            Number { negative: false, magnitude: 0 }
        } else {
            Number { negative: !self.negative, magnitude: self.magnitude }
        }
    }
}

/// Whether a mantissa lies in the representable range.
pub open spec fn in_range(m: int) -> bool {
    -(MAX_MAG as int) <= m <= MAX_MAG as int
}

/// `p / q` rounded to the nearest integer, ties up, for `p >= 0`,
/// `q > 0`.
pub open spec fn round_div(p: int, q: int) -> int
    recommends
        p >= 0,
        q > 0,
{
    (p + q / 2) / q
}

/// Signed rounding: the magnitude rounds half away from zero.
pub open spec fn round_signed(p: int, q: int) -> int
    recommends
        q > 0,
{
    if p >= 0 {
        round_div(p, q)
    } else {
        -round_div(-p, q)
    }
}

/// `Some(m)` when `m` is representable, `None` otherwise.
pub open spec fn ranged(m: int) -> Option<int> {
    if in_range(m) {
        Some(m)
    } else {
        None
    }
}

/// What a binary operator yields on mantissas `a` and `b`: the exact
/// sum or difference; the product scaled back to ten fractional digits
/// by rounding; the quotient scaled up likewise.  `None` is overflow:
/// a result out of range, or any division by zero.
pub open spec fn calc_m(op: Operator, a: int, b: int) -> Option<int> {
    match op {
        Operator::Add => ranged(a + b),
        Operator::Subtract => ranged(a - b),
        Operator::Multiply => ranged(round_signed(a * b, SCALE_U as int)),
        Operator::Divide => if b == 0 {
            None
        } else {
            ranged(
                round_signed(
                    if b < 0 {
                        -(a * (SCALE_U as int))
                    } else {
                        a * (SCALE_U as int)
                    },
                    mag_of(b) as int,
                ),
            )
        },
    }
}

/// What the percent key yields: the mantissa divided by one hundred,
/// rounded to the nearest representable mantissa, ties away from zero.
pub open spec fn percent_m(m: int) -> int {
    round_signed(m, 100)
}

fn sum_parts(a: &Number, b: &Number) -> (r: (bool, u128))
    requires
        a.wf(),
        b.wf(),
    ensures
        signed_mantissa(r.0, r.1 as nat) == a.m() + b.m(),
        r.0 ==> r.1 > 0,
        r.1 as nat == mag_of(a.m() + b.m()),
{
    if a.negative == b.negative {
        (a.negative, a.magnitude + b.magnitude)
    } else if a.magnitude >= b.magnitude {
        let mg = a.magnitude - b.magnitude;
        (a.negative && mg > 0, mg)
    } else {
        (b.negative, b.magnitude - a.magnitude)
    }
}

proof fn lemma_signed_mul(an: bool, am: nat, bn: bool, bm: nat)
    ensures
        signed_mantissa(an, am) * signed_mantissa(bn, bm) == if an == bn {
            (am * bm) as int
        } else {
            -((am * bm) as int)
        },
{
    assert((-(am as int)) * (-(bm as int)) == (am as int) * (bm as int)) by (nonlinear_arith);
    assert((-(am as int)) * (bm as int) == -((am as int) * (bm as int))) by (nonlinear_arith);
    assert((am as int) * (-(bm as int)) == -((am as int) * (bm as int))) by (nonlinear_arith);
}

proof fn lemma_round_div_big(p: int, q: int)
    requires
        q > 0,
        p >= (MAX_MAG as int + 1) * q,
    ensures
        round_div(p, q) > MAX_MAG as int,
{
    vstd::arithmetic::div_mod::lemma_div_is_ordered((MAX_MAG as int + 1) * q, p + q / 2, q);
    vstd::arithmetic::div_mod::lemma_div_multiples_vanish(MAX_MAG as int + 1, q);
}

/// Applies a binary operator; `None` is the overflow outcome.
pub fn calculate(op: Operator, a: &Number, b: &Number) -> (r: Option<Number>)
    requires
        a.wf(),
        b.wf(),
    ensures
        match r {
            Some(n) => n.wf() && calc_m(op, a.m(), b.m()) == Some(n.m()),
            None => calc_m(op, a.m(), b.m()) is None,
        },
{
    match op {
        Operator::Add => {
            let (neg, mag) = sum_parts(a, b);
            if mag > MAX_MAG {
                None
            } else {
                Some(Number { negative: neg, magnitude: mag })
            }
        },
        Operator::Subtract => {
            let nb = b.negated();
            let (neg, mag) = sum_parts(a, &nb);
            if mag > MAX_MAG {
                None
            } else {
                Some(Number { negative: neg, magnitude: mag })
            }
        },
        Operator::Multiply => {
            proof {
                lemma_signed_mul(a.negative, a.magnitude as nat, b.negative, b.magnitude as nat);
            }
            let ghost prod = a.m() * b.m();
            match a.magnitude.checked_mul(b.magnitude) {
                None => {
                    proof {
                        let pp = (a.magnitude as int) * (b.magnitude as int);
                        lemma_round_div_big(pp, SCALE_U as int);
                        assert(round_signed(prod, SCALE_U as int) == if prod >= 0 {
                            round_div(pp, SCALE_U as int)
                        } else {
                            -round_div(pp, SCALE_U as int)
                        });
                    }
                    None
                },
                Some(p) => {
                    proof {
                        assert(round_signed(prod, SCALE_U as int) == if prod >= 0 {
                            round_div(p as int, SCALE_U as int)
                        } else {
                            -round_div(p as int, SCALE_U as int)
                        });
                    }
                    if p > u128::MAX - HALF_SCALE_U {
                        proof {
                            lemma_round_div_big(p as int, SCALE_U as int);
                        }
                        None
                    } else {
                        let rd = (p + HALF_SCALE_U) / SCALE_U;
                        proof {
                            assert(rd as int == round_div(p as int, SCALE_U as int));
                        }
                        if rd > MAX_MAG {
                            None
                        } else {
                            Some(
                                Number {
                                    negative: (a.negative != b.negative) && rd > 0,
                                    magnitude: rd,
                                },
                            )
                        }
                    }
                },
            }
        },
        Operator::Divide => {
            if b.magnitude == 0 {
                None
            } else {
                proof {
                    assert((a.magnitude as int) * (SCALE_U as int) <= (MAX_MAG as int) * (
                    SCALE_U as int)) by (nonlinear_arith)
                        requires
                            a.magnitude <= MAX_MAG,
                    ;
                    lemma_signed_mul(a.negative, a.magnitude as nat, false, SCALE_U as nat);
                }
                let p = a.magnitude * SCALE_U;
                let q = b.magnitude;
                let rd = (p + q / 2) / q;
                proof {
                    assert(signed_mantissa(false, SCALE_U as nat) == SCALE_U as int);
                    assert((b.m() < 0) == b.negative);
                    assert(mag_of(b.m()) == b.magnitude as nat);
                    let num = if b.m() < 0 {
                        -(a.m() * (SCALE_U as int))
                    } else {
                        a.m() * (SCALE_U as int)
                    };
                    assert(num == if a.negative == b.negative {
                        p as int
                    } else {
                        -(p as int)
                    });
                    assert(rd as int == round_div(p as int, q as int));
                    assert(p == 0 ==> rd == 0) by {
                        vstd::arithmetic::div_mod::lemma_basic_div((q as int) / 2, q as int);
                    };
                    assert(round_signed(num, q as int) == if a.negative == b.negative {
                        rd as int
                    } else {
                        -(rd as int)
                    });
                }
                if rd > MAX_MAG {
                    None
                } else {
                    Some(Number { negative: (a.negative != b.negative) && rd > 0, magnitude: rd })
                }
            }
        },
    }
}

/// Applies the percent key: divides by one hundred.  The result always
/// stays in range.
pub fn percent(n: &Number) -> (r: Number)
    requires
        n.wf(),
    ensures
        r.wf(),
        r.m() == percent_m(n.m()),
{
    let rd = (n.magnitude + 50) / 100;
    proof {
        vstd::arithmetic::div_mod::lemma_div_is_ordered(
            n.magnitude as int + 50,
            MAX_MAG as int + 50,
            100,
        );
    }
    Number { negative: n.negative && rd > 0, magnitude: rd }
}

} // verus!
