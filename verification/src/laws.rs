//! Laws of the calculator.
//!
//! Each proof function here states a property that holds of every
//! input it admits; the step functions of `state` and the contracts of
//! the executable methods supply the facts.

use vstd::prelude::*;

verus! {

use crate::number::{Operator, calc_m, percent_m, in_range, round_div};
use crate::numeral::{
    DISPLAY_MAX,
    all_digits,
    is_digit_char,
    has_sign,
    unsigned_of,
    int_part,
    frac_part,
    numeral_of,
    point_count,
    lemma_point_count_concat,
    lemma_point_count_zero,
    lemma_single_digit,
    lemma_frac_value_empty,
};
use crate::state::{
    Model,
    model_wf,
    init_model,
    step_digit,
    step_clear,
    step_operator,
    step_percent,
    step_sign,
};

/// The state after pressing the digits `ds` in order.
pub open spec fn press_digits(m: Model, ds: Seq<char>) -> Model
    decreases ds.len(),
{
    if ds.len() == 0 {
        m
    } else {
        press_digits(step_digit(m, ds[0]), ds.drop_first())
    }
}

proof fn law_digit_entry_aux(m: Model, ds: Seq<char>)
    requires
        !m.error,
        !m.waiting,
        m.display.len() >= 1,
        m.display[0] != '0',
        m.display.len() + ds.len() <= DISPLAY_MAX as nat,
        all_digits(ds),
    ensures
        press_digits(m, ds).display == m.display + ds,
    decreases ds.len(),
{
    if ds.len() == 0 {
        assert(m.display + ds =~= m.display);
    } else {
        assert(is_digit_char(ds[0]));
        assert(m.display != seq!['0']);
        let m1 = step_digit(m, ds[0]);
        assert(m1.display =~= m.display.push(ds[0]));
        assert(m1.display[0] == m.display[0]);
        law_digit_entry_aux(m1, ds.drop_first());
        assert(forall|i: int| 0 <= i < ds.drop_first().len() ==> ds.drop_first()[i] == ds[i + 1]);
        assert(m.display.push(ds[0]) + ds.drop_first() =~= m.display + ds);
    }
}

/// Typing a digit sequence right after clear shows exactly that
/// sequence: the display equals the entered numeral.  (A sequence
/// opening with `0` has the zero replaced by the next digit, so it is
/// left out here.)
pub proof fn law_digit_entry(ds: Seq<char>)
    requires
        1 <= ds.len() <= DISPLAY_MAX as nat,
        all_digits(ds),
        ds[0] != '0',
    ensures
        press_digits(init_model(), ds).display == ds,
{
    let m1 = step_digit(init_model(), ds[0]);
    assert(m1.display =~= seq![ds[0]]);
    law_digit_entry_aux(m1, ds.drop_first());
    assert(forall|i: int| 0 <= i < ds.drop_first().len() ==> ds.drop_first()[i] == ds[i + 1]);
    assert(seq![ds[0]] + ds.drop_first() =~= ds);
}

/// Chained operators apply left to right: with an operation pending
/// and no intervening equals, the next operator key first applies the
/// pending operation to its left operand and the displayed value,
/// shows that result, makes it the new left operand, and only then
/// records the new operator.
pub proof fn law_operators_left_to_right(
    m: Model,
    op1: Operator,
    p: int,
    c: int,
    op2: Operator,
    r: int,
)
    requires
        !m.error,
        m.operator == Some(op1),
        m.previous == Some(p),
        m.value == Some(c),
        calc_m(op1, p, c) == Some(r),
    ensures
        step_operator(m, op2).display == numeral_of(r),
        step_operator(m, op2).previous == Some(r),
        step_operator(m, op2).operator == Some(op2),
        step_operator(m, op2).waiting,
{
}

/// The percent key leaves the displayed value unchanged exactly on
/// zero: dividing by one hundred has no other fixed point among the
/// representable mantissas.
pub proof fn law_percent_fixed_point(c: int)
    requires
        in_range(c),
    ensures
        percent_m(c) == c <==> c == 0,
{
    vstd::arithmetic::div_mod::lemma_basic_div(50, 100);
    if c > 0 {
        vstd::arithmetic::div_mod::lemma_multiply_divide_lt(c + 50, c, 100);
        assert(round_div(c, 100) < c);
    }
    if c < 0 {
        vstd::arithmetic::div_mod::lemma_multiply_divide_lt(-c + 50, -c, 100);
        assert(round_div(-c, 100) < -c);
    }
}

/// On the calculator itself: the percent key divides the displayed
/// value by one hundred, and leaves it unchanged exactly when it is
/// zero.
pub proof fn law_percent_on_display(m: Model, c: int)
    requires
        !m.error,
        m.value == Some(c),
        in_range(c),
    ensures
        step_percent(m).value == Some(percent_m(c)),
        (step_percent(m).value == m.value) <==> c == 0,
{
    law_percent_fixed_point(c);
}

/// Toggling the sign of a displayed zero changes nothing.
pub proof fn law_sign_toggle_zero(m: Model)
    requires
        !m.error,
        m.value == Some(0int),
    ensures
        step_sign(m) == m,
{
}

/// The clear key returns any state, the error state included, to the
/// initial one, and the initial state satisfies the invariant.
pub proof fn law_clear_resets(m: Model)
    ensures
        step_clear(m) == init_model(),
        model_wf(init_model()),
{
    lemma_single_digit('0');
    lemma_frac_value_empty();
}

/// A well-formed display holds at most one decimal point, so a second
/// point can never be entered into one operand.
pub proof fn law_at_most_one_point(m: Model)
    requires
        model_wf(m),
        !m.error,
    ensures
        point_count(m.display) <= 1,
{
    let ip = int_part(m.display, m.frac);
    let u = unsigned_of(ip);
    assert(forall|i: int| 0 <= i < ip.len() ==> ip[i] != '.') by {
        assert(forall|i: int| 0 <= i < u.len() ==> is_digit_char(#[trigger] u[i]));
        if has_sign(ip) {
            assert(forall|i: int| 1 <= i < ip.len() ==> ip[i] == u[i - 1]);
        }
    };
    lemma_point_count_zero(ip);
    match m.frac {
        None => {
            assert(point_count(m.display) == 0);
        },
        Some(k) => {
            let fp = frac_part(m.display, m.frac);
            assert(m.display =~= ip + (seq!['.'] + fp));
            assert(forall|i: int| 0 <= i < fp.len() ==> fp[i] != '.') by {
                assert(forall|i: int| 0 <= i < fp.len() ==> is_digit_char(#[trigger] fp[i]));
            };
            lemma_point_count_zero(fp);
            assert(point_count(seq!['.']) == 1) by {
                assert(seq!['.'].drop_last() =~= Seq::<char>::empty());
                assert(point_count(Seq::<char>::empty()) == 0);
                assert(seq!['.'].last() == '.');
            };
            lemma_point_count_concat(seq!['.'], fp);
            lemma_point_count_concat(ip, seq!['.'] + fp);
        },
    }
}

} // verus!
