//! The calculator state machine.
//!
//! `Calculator` holds the display text and the pending-operation state.
//! Its abstract value is a `Model`; every button press is specified by
//! a spec-level step function over models, and each executable method
//! is proved to implement its step exactly.

use vstd::prelude::*;

verus! {

use vstd::string::StringExecFns;
use crate::number::{Number, Operator, calc_m, percent_m, in_range, calculate, percent};
use crate::numeral::{
    SCALE_U,
    MAX_MAG,
    DISPLAY_MAX,
    digit_val,
    is_digit_char,
    pow10,
    display_shape,
    display_mantissa,
    frac_part,
    has_sign,
    unsigned_of,
    digits_value,
    frac_value,
    numeral_of,
    frac_of,
    mag_of,
    signed_mantissa,
    format_mantissa,
    lemma_numeral_roundtrip,
    lemma_pow10_vals,
    lemma_single_digit,
    lemma_int_append,
    lemma_frac_append,
    lemma_point_append,
};

/// A button of the calculator.
#[derive(Clone, Copy, Debug)]
pub enum ButtonType {
    /// One of the digit keys `'0'` through `'9'`.
    Number(char),
    /// The decimal-point key.
    Decimal,
    /// One of the four operator keys.
    Operator(Operator),
    /// The equals key.
    Equals,
    /// The clear key.
    Clear,
    /// The sign-toggle key.
    Sign,
    /// The percent key.
    Percent,
}

/// The display text in the error state.
pub open spec fn error_text() -> Seq<char> {
    seq!['E', 'r', 'r', 'o', 'r']
}

/// The abstract state of the calculator.
#[verifier::ext_equal]
pub ghost struct Model {
    /// The characters shown.
    pub display: Seq<char>,
    /// The mantissa the display denotes, in units of `10^-10`
    /// (`None`: the displayed numeral lies outside the representable
    /// range).  Meaningless in the error state.
    pub value: Option<int>,
    /// How many digits follow the decimal point in the display
    /// (`None`: the display holds no point).
    pub frac: Option<nat>,
    /// Whether the display shows the error marker.
    pub error: bool,
    /// The left operand of the pending binary operation.
    pub previous: Option<int>,
    /// The pending binary operator.
    pub operator: Option<Operator>,
    /// Whether the next digit starts a fresh operand.
    pub waiting: bool,
    /// Whether the operand being entered already holds a decimal
    /// point.
    pub has_decimal: bool,
}

/// The state after clear, and at application start.
pub open spec fn init_model() -> Model {
    Model {
        display: seq!['0'],
        value: Some(0),
        frac: None,
        error: false,
        previous: None,
        operator: None,
        waiting: false,
        has_decimal: false,
    }
}

/// The invariant every reachable model satisfies.
pub open spec fn model_wf(m: Model) -> bool {
    &&& m.display.len() <= DISPLAY_MAX as nat
    &&& if m.error {
        &&& m.display == error_text()
        &&& m.value is None
        &&& m.frac is None
    } else {
        &&& display_shape(m.display, m.frac)
        &&& match m.value {
            Some(v) => v == display_mantissa(m.display, m.frac) && in_range(v),
            None => !in_range(display_mantissa(m.display, m.frac)),
        }
        &&& has_sign(m.display) ==> display_mantissa(m.display, m.frac) < 0
        &&& (m.frac is None && display_mantissa(m.display, m.frac) == 0) ==> m.display
            == seq!['0']
        &&& (!m.waiting && m.frac is Some) ==> m.has_decimal
    }
    &&& match (m.operator, m.previous) {
        (Some(_), Some(p)) => in_range(p),
        (None, None) => true,
        _ => false,
    }
}

/// The model in the error state: the marker on the display, the rest
/// untouched.
pub open spec fn to_error(m: Model) -> Model {
    Model { display: error_text(), value: None, frac: None, error: true, ..m }
}

/// The model showing the freshly computed mantissa `r`; the control
/// fields keep their old values.
pub open spec fn with_result(m: Model, r: int) -> Model {
    Model { display: numeral_of(r), value: Some(r), frac: frac_of(r), error: false, ..m }
}

/// A digit press on a non-error state.
pub open spec fn enter_digit(m: Model, d: char) -> Model {
    if m.waiting {
        Model {
            display: seq![d],
            value: Some(digit_val(d) as int * (SCALE_U as int)),
            frac: None,
            waiting: false,
            has_decimal: false,
            ..m
        }
    } else if m.display == seq!['0'] {
        Model { display: seq![d], value: Some(digit_val(d) as int * (SCALE_U as int)), frac: None, ..m }
    } else if m.display.len() >= DISPLAY_MAX as nat {
        m
    } else {
        match m.frac {
            None => Model {
                display: m.display.push(d),
                value: match m.value {
                    Some(v) => {
                        let v2 = if has_sign(m.display) {
                            v * 10 - digit_val(d) as int * (SCALE_U as int)
                        } else {
                            v * 10 + digit_val(d) as int * (SCALE_U as int)
                        };
                        if in_range(v2) {
                            Some(v2)
                        } else {
                            None
                        }
                    },
                    None => None,
                },
                ..m
            },
            Some(k) => Model {
                display: m.display.push(d),
                frac: Some(k + 1),
                value: if k >= 10 {
                    m.value
                } else {
                    match m.value {
                        Some(v) => {
                            let v2 = if has_sign(m.display) {
                                v - digit_val(d) as int * pow10((9 - k) as nat)
                            } else {
                                v + digit_val(d) as int * pow10((9 - k) as nat)
                            };
                            if in_range(v2) {
                                Some(v2)
                            } else {
                                None
                            }
                        },
                        None => None,
                    }
                },
                ..m
            },
        }
    }
}

/// A decimal-point press on a non-error state.
pub open spec fn enter_decimal(m: Model) -> Model {
    if m.waiting {
        Model {
            display: seq!['0', '.'],
            value: Some(0),
            frac: Some(0),
            waiting: false,
            has_decimal: true,
            ..m
        }
    } else if m.has_decimal || m.display.len() >= DISPLAY_MAX as nat {
        m
    } else {
        Model { display: m.display.push('.'), frac: Some(0), has_decimal: true, ..m }
    }
}

/// What a digit press does: in the error state it clears first; the
/// digit then replaces the display when a fresh operand starts (or a
/// lone zero shows), and extends it otherwise.
pub open spec fn step_digit(m: Model, d: char) -> Model {
    if m.error {
        enter_digit(init_model(), d)
    } else {
        enter_digit(m, d)
    }
}

/// What a decimal-point press does: in the error state it clears
/// first; a fresh operand starts as `0.`; a second point in one
/// operand is ignored.
pub open spec fn step_decimal(m: Model) -> Model {
    if m.error {
        enter_decimal(init_model())
    } else {
        enter_decimal(m)
    }
}

/// What the clear key does: back to the initial state.
pub open spec fn step_clear(m: Model) -> Model {
    init_model()
}

/// What an operator press does.  With an operation already pending,
/// that operation is applied to its left operand and the displayed
/// value first, left to right, and its result is shown and becomes the
/// left operand; on overflow the error marker is shown and the new
/// operator is not recorded.  With none pending, the displayed value
/// becomes the left operand.  A displayed value outside the
/// representable range overflows when it is consumed.
pub open spec fn step_operator(m: Model, op: Operator) -> Model {
    if m.error {
        m
    } else {
        match m.value {
            None => to_error(m),
            Some(c) => match (m.operator, m.previous) {
                (Some(pop), Some(pv)) => match calc_m(pop, pv, c) {
                    None => to_error(m),
                    Some(r) => Model {
                        previous: Some(r),
                        operator: Some(op),
                        waiting: true,
                        has_decimal: false,
                        ..with_result(m, r)
                    },
                },
                _ => Model {
                    previous: Some(c),
                    operator: Some(op),
                    waiting: true,
                    has_decimal: false,
                    ..m
                },
            },
        }
    }
}

/// What the equals key does: with an operation pending, its result is
/// shown and the pending state is cleared; on overflow the error
/// marker is shown and the pending state is kept.  Without one,
/// nothing changes.
pub open spec fn step_equals(m: Model) -> Model {
    if m.error {
        m
    } else {
        match (m.operator, m.previous) {
            (Some(op), Some(pv)) => match m.value {
                None => to_error(m),
                Some(c) => match calc_m(op, pv, c) {
                    None => to_error(m),
                    Some(r) => Model {
                        previous: None,
                        operator: None,
                        waiting: true,
                        has_decimal: mag_of(r) % (SCALE_U as nat) != 0,
                        ..with_result(m, r)
                    },
                },
            },
            _ => m,
        }
    }
}

/// What the sign key does: nothing on zero, otherwise the negated
/// value is shown.
pub open spec fn step_sign(m: Model) -> Model {
    if m.error {
        m
    } else {
        match m.value {
            None => to_error(m),
            Some(c) => if c == 0 {
                m
            } else {
                with_result(m, -c)
            },
        }
    }
}

/// What the percent key does: the displayed value divided by one
/// hundred is shown.
pub open spec fn step_percent(m: Model) -> Model {
    if m.error {
        m
    } else {
        match m.value {
            None => to_error(m),
            Some(c) => Model { has_decimal: true, ..with_result(m, percent_m(c)) },
        }
    }
}

/// What one button press does.
pub open spec fn step_button(m: Model, b: ButtonType) -> Model {
    match b {
        ButtonType::Number(d) => step_digit(m, d),
        ButtonType::Decimal => step_decimal(m),
        ButtonType::Operator(op) => step_operator(m, op),
        ButtonType::Equals => step_equals(m),
        ButtonType::Clear => step_clear(m),
        ButtonType::Sign => step_sign(m),
        ButtonType::Percent => step_percent(m),
    }
}

/// Whether a button press is one the key grid can produce: a digit
/// button carries a digit character.
pub open spec fn valid_button(b: ButtonType) -> bool {
    match b {
        ButtonType::Number(d) => is_digit_char(d),
        _ => true,
    }
}

/// A message from the key grid.
#[derive(Clone, Copy, Debug)]
pub enum Message {
    /// A button was pressed.
    ButtonPressed(ButtonType),
}

/// What one message does to the model.
pub open spec fn step_message(m: Model, msg: Message) -> Model {
    match msg {
        Message::ButtonPressed(b) => step_button(m, b),
    }
}

/// Whether a message is one the key grid can produce.
pub open spec fn valid_message(msg: Message) -> bool {
    match msg {
        Message::ButtonPressed(b) => valid_button(b),
    }
}

/// The calculator: display text plus pending-operation state.
pub struct Calculator {
    display: String,
    current: Option<Number>,
    frac: Option<usize>,
    error: bool,
    previous: Option<Number>,
    operator: Option<Operator>,
    waiting: bool,
    has_decimal: bool,
}

impl View for Calculator {
    type V = Model;

    closed spec fn view(&self) -> Model {
        Model {
            display: self.display@,
            value: match self.current {
                Some(n) => Some(n.m()),
                None => None,
            },
            frac: match self.frac {
                Some(k) => Some(k as nat),
                None => None,
            },
            error: self.error,
            previous: match self.previous {
                Some(n) => Some(n.m()),
                None => None,
            },
            operator: self.operator,
            waiting: self.waiting,
            has_decimal: self.has_decimal,
        }
    }
}

impl Calculator {
    /// Well-formed: the model invariant holds of the abstract state,
    /// and the stored numbers are well-formed.
    pub closed spec fn wf(&self) -> bool {
        &&& model_wf(self@)
        &&& match self.current {
            Some(n) => n.wf(),
            None => true,
        }
        &&& match self.previous {
            Some(n) => n.wf(),
            None => true,
        }
    }

    /// A well-formed calculator's abstract state satisfies the model
    /// invariant.
    pub proof fn lemma_wf_model(&self)
        requires
            self.wf(),
        ensures
            model_wf(self@),
    {
    }

    /// A fresh calculator: display `0`, nothing pending.
    pub fn new() -> (r: Calculator)
        ensures
            r.wf(),
            r@ == init_model(),
    {
        let c = Calculator {
            display: "0".to_owned(),
            current: Some(Number::zero()),
            frac: None,
            error: false,
            previous: None,
            operator: None,
            waiting: false,
            has_decimal: false,
        };
        proof {
            reveal_strlit("0");
            assert(c@.display =~= seq!['0']);
            lemma_single_digit('0');
            assert(digit_val('0') * (SCALE_U as nat) == 0);
            assert(c@ =~= init_model());
        }
        c
    }

    /// Resets every field to its initial value.
    pub fn clear(&mut self)
        ensures
            final(self).wf(),
            final(self)@ == step_clear(old(self)@),
    {
        *self = Calculator::new();
    }

    /// Whether the display shows the error marker.
    pub fn is_error(&self) -> (r: bool)
        ensures
            r == self@.error,
    {
        self.error
    }

    /// The text shown on the display.
    pub fn display_str(&self) -> (r: &str)
        ensures
            r@ == self@.display,
    {
        self.display.as_str()
    }

    /// Handles a digit key.  In the error state the calculator clears
    /// first.  The digit starts a fresh operand after an operator or
    /// equals press and replaces a lone zero; otherwise it extends the
    /// display, at the next integer or fractional place.
    #[verifier::rlimit(50)]
    pub fn input_number(&mut self, digit: char)
        requires
            old(self).wf(),
            is_digit_char(digit),
        ensures
            final(self).wf(),
            final(self)@ == step_digit(old(self)@, digit),
    {
        if self.error {
            self.clear();
        }
        let ghost m0 = self@;
        let dv = crate::numeral::digit_value_of(digit);
        if self.waiting {
            self.display = crate::numeral::digit_str(dv).to_owned();
            self.current = Some(Number { negative: false, magnitude: (dv as u128) * SCALE_U });
            self.frac = None;
            self.waiting = false;
            self.has_decimal = false;
            proof {
                lemma_single_digit(digit);
                assert(self@ =~= enter_digit(m0, digit));
            }
        } else {
            let replace = match self.current {
                Some(n) => n.magnitude == 0 && (match self.frac {
                    Some(_) => false,
                    None => true,
                }),
                None => false,
            };
            if replace {
                proof {
                    assert(m0.display == seq!['0']);
                }
                self.display = crate::numeral::digit_str(dv).to_owned();
                self.current = Some(Number { negative: false, magnitude: (dv as u128) * SCALE_U });
                proof {
                    lemma_single_digit(digit);
                    assert(self@ =~= enter_digit(m0, digit));
                }
            } else {
                proof {
                    assert(m0.display != seq!['0']) by {
                        if m0.display == seq!['0'] {
                            assert(m0.frac is None) by {
                                match m0.frac {
                                    Some(k) => {
                                        assert(m0.display.len() >= k + 2);
                                    },
                                    None => {},
                                }
                            };
                            assert(seq!['0'].drop_last() =~= Seq::<char>::empty());
                            assert(frac_value(frac_part(m0.display, m0.frac)) == 0 * pow10(10)) by {
                                assert(frac_part(m0.display, None) =~= Seq::<char>::empty());
                            };
                            assert(display_mantissa(m0.display, m0.frac) == 0);
                        }
                    };
                }
                let len = self.display.as_str().unicode_len();
                if len >= DISPLAY_MAX {
                    proof {
                        assert(self@ =~= enter_digit(m0, digit));
                    }
                } else {
                    self.display.append(crate::numeral::digit_str(dv));
                    let fr = self.frac;
                    match fr {
                        None => {
                            proof {
                                lemma_int_append(m0.display, digit);
                            }
                            match self.current {
                                Some(n) => {
                                    let mg = n.magnitude * 10 + (dv as u128) * SCALE_U;
                                    if mg > MAX_MAG {
                                        self.current = None;
                                    } else {
                                        self.current = Some(
                                            Number { negative: n.negative, magnitude: mg },
                                        );
                                    }
                                    proof {
                                        assert(self@ =~= enter_digit(m0, digit));
                                    }
                                },
                                None => {
                                    proof {
                                        assert(self@ =~= enter_digit(m0, digit));
                                    }
                                },
                            }
                        },
                        Some(k) => {
                            if k <= 9 {
                                let p = crate::numeral::pow10_u(9 - (k as u8));
                                proof {
                                    lemma_pow10_vals();
                                    crate::numeral::lemma_pow10_mono((9 - k as nat) as nat, 10);
                                    assert(p <= 10_000_000_000);
                                    assert((dv as int) * (p as int) <= 90_000_000_000)
                                        by (nonlinear_arith)
                                        requires
                                            dv as int <= 9,
                                            0 <= p as int <= 10_000_000_000,
                                    ;
                                }
                                let add = (dv as u128) * p;
                                match self.current {
                                    Some(n) => {
                                        let mg = n.magnitude + add;
                                        if mg > MAX_MAG {
                                            self.current = None;
                                        } else {
                                            self.current = Some(
                                                Number { negative: n.negative, magnitude: mg },
                                            );
                                        }
                                    },
                                    None => {},
                                }
                                self.frac = Some(k + 1);
                                proof {
                                    lemma_frac_append(m0.display, k as nat, digit);
                                    assert(self@ =~= enter_digit(m0, digit));
                                }
                            } else {
                                self.frac = Some(k + 1);
                                proof {
                                    lemma_frac_append(m0.display, k as nat, digit);
                                    assert(self@ =~= enter_digit(m0, digit));
                                }
                            }
                        },
                    }
                }
            }
        }
    }

    /// Handles the decimal-point key.  In the error state the
    /// calculator clears first.  A fresh operand starts as `0.`; a
    /// point is appended otherwise, unless the operand already has
    /// one.
    pub fn input_decimal(&mut self)
        requires
            old(self).wf(),
        ensures
            final(self).wf(),
            final(self)@ == step_decimal(old(self)@),
    {
        if self.error {
            self.clear();
        }
        let ghost m0 = self@;
        if self.waiting {
            self.display = "0.".to_owned();
            self.current = Some(Number::zero());
            self.frac = Some(0);
            self.waiting = false;
            self.has_decimal = true;
            proof {
                reveal_strlit("0.");
                assert(self.display@ =~= seq!['0', '.']);
                lemma_single_digit('0');
                lemma_point_append(seq!['0']);
                assert(seq!['0'].push('.') =~= seq!['0', '.']);
                assert(digit_val('0') * (SCALE_U as nat) == 0);
                assert(self@ =~= enter_decimal(m0));
            }
        } else if self.has_decimal {
            proof {
                assert(self@ =~= enter_decimal(m0));
            }
        } else {
            let len = self.display.as_str().unicode_len();
            if len >= DISPLAY_MAX {
                proof {
                    assert(self@ =~= enter_decimal(m0));
                }
            } else {
                self.display.append(".");
                self.frac = Some(0);
                self.has_decimal = true;
                proof {
                    reveal_strlit(".");
                    assert(self.display@ =~= m0.display.push('.'));
                    lemma_point_append(m0.display);
                    assert(self@ =~= enter_decimal(m0));
                }
            }
        }
    }

    /// Shows a computed value: the canonical numeral of `Some(n)`, or
    /// the error marker for the overflow outcome `None`.  Only the
    /// display and its bookkeeping change.
    fn update_display(&mut self, value: Option<Number>)
        requires
            match value {
                Some(n) => n.wf(),
                None => true,
            },
        ensures
            final(self)@ == match value {
                Some(n) => Model {
                    display: numeral_of(n.m()),
                    value: Some(n.m()),
                    frac: frac_of(n.m()),
                    error: false,
                    ..old(self)@
                },
                None => to_error(old(self)@),
            },
            final(self).current == value,
            final(self).previous == old(self).previous,
    {
        match value {
            Some(n) => {
                let r = format_mantissa(n.negative, n.magnitude);
                self.display = r.0;
                self.frac = r.1;
                self.current = Some(n);
                self.error = false;
                proof {
                    assert(signed_mantissa(n.negative, n.magnitude as nat) == n.m());
                    assert(self@ =~= Model {
                        display: numeral_of(n.m()),
                        value: Some(n.m()),
                        frac: frac_of(n.m()),
                        error: false,
                        ..old(self)@
                    });
                }
            },
            None => {
                self.display = "Error".to_owned();
                self.frac = None;
                self.current = None;
                self.error = true;
                proof {
                    reveal_strlit("Error");
                    assert(self.display@ =~= error_text());
                    assert(self@ =~= to_error(old(self)@));
                }
            },
        }
    }

    /// Handles an operator key.  A pending operation is applied first,
    /// left to right, and its result shown; on overflow the error
    /// marker is shown and the new operator is not recorded.
    /// Otherwise the displayed value is captured as the left operand
    /// and the calculator waits for the next one.
    pub fn input_operator(&mut self, op: Operator)
        requires
            old(self).wf(),
        ensures
            final(self).wf(),
            final(self)@ == step_operator(old(self)@, op),
    {
        if self.error {
            return;
        }
        let ghost m0 = self@;
        match self.current {
            None => {
                self.update_display(None);
                proof {
                    assert(self@ =~= step_operator(m0, op));
                }
            },
            Some(cur) => {
                match (self.operator, self.previous) {
                    (Some(pop), Some(prev)) => {
                        let result = calculate(pop, &prev, &cur);
                        match result {
                            None => {
                                self.update_display(None);
                                proof {
                                    assert(self@ =~= step_operator(m0, op));
                                }
                            },
                            Some(r) => {
                                self.update_display(Some(r));
                                self.previous = Some(r);
                                self.operator = Some(op);
                                self.waiting = true;
                                self.has_decimal = false;
                                proof {
                                    lemma_numeral_roundtrip(r.m());
                                    assert(self@ =~= step_operator(m0, op));
                                }
                            },
                        }
                    },
                    _ => {
                        self.previous = Some(cur);
                        self.operator = Some(op);
                        self.waiting = true;
                        self.has_decimal = false;
                        proof {
                            assert(self@ =~= step_operator(m0, op));
                        }
                    },
                }
            },
        }
    }

    /// Handles the equals key: applies the pending operation and shows
    /// its result, clearing the pending state; on overflow the error
    /// marker is shown instead.  Without a pending operation nothing
    /// changes.
    pub fn execute_calculation(&mut self)
        requires
            old(self).wf(),
        ensures
            final(self).wf(),
            final(self)@ == step_equals(old(self)@),
    {
        if self.error {
            return;
        }
        let ghost m0 = self@;
        match (self.operator, self.previous) {
            (Some(op), Some(prev)) => {
                match self.current {
                    None => {
                        self.update_display(None);
                        proof {
                            assert(self@ =~= step_equals(m0));
                        }
                    },
                    Some(cur) => {
                        match calculate(op, &prev, &cur) {
                            None => {
                                self.update_display(None);
                                proof {
                                    assert(self@ =~= step_equals(m0));
                                }
                            },
                            Some(r) => {
                                self.update_display(Some(r));
                                self.previous = None;
                                self.operator = None;
                                self.waiting = true;
                                self.has_decimal = r.magnitude % SCALE_U != 0;
                                proof {
                                    lemma_numeral_roundtrip(r.m());
                                    assert(mag_of(r.m()) == r.magnitude as nat);
                                    assert(self@ =~= step_equals(m0));
                                }
                            },
                        }
                    },
                }
            },
            _ => {
                proof {
                    assert(self@ =~= step_equals(m0));
                }
            },
        }
    }

    /// Handles the sign key: shows the negated value; on zero nothing
    /// changes.
    pub fn toggle_sign(&mut self)
        requires
            old(self).wf(),
        ensures
            final(self).wf(),
            final(self)@ == step_sign(old(self)@),
    {
        if self.error {
            return;
        }
        let ghost m0 = self@;
        match self.current {
            None => {
                self.update_display(None);
                proof {
                    assert(self@ =~= step_sign(m0));
                }
            },
            Some(cur) => {
                if cur.magnitude != 0 {
                    let neg = cur.negated();
                    self.update_display(Some(neg));
                    proof {
                        lemma_numeral_roundtrip(neg.m());
                        assert(self@ =~= step_sign(m0));
                        assert((!self@.waiting && self@.frac is Some) ==> self@.has_decimal) by {
                            if m0.frac is None && frac_of(neg.m()) is Some {
                                let u = unsigned_of(m0.display);
                                assert(frac_part(m0.display, None) =~= Seq::<char>::empty());
                                crate::numeral::lemma_frac_value_empty();
                                assert(mag_of(neg.m()) == digits_value(u) * (SCALE_U as nat));
                                vstd::arithmetic::div_mod::lemma_mod_multiples_basic(
                                    digits_value(u) as int,
                                    SCALE_U as int,
                                );
                            }
                        };
                    }
                } else {
                    proof {
                        assert(self@ =~= step_sign(m0));
                    }
                }
            },
        }
    }

    /// Handles the percent key: shows the displayed value divided by
    /// one hundred.
    pub fn calculate_percent(&mut self)
        requires
            old(self).wf(),
        ensures
            final(self).wf(),
            final(self)@ == step_percent(old(self)@),
    {
        if self.error {
            return;
        }
        let ghost m0 = self@;
        match self.current {
            None => {
                self.update_display(None);
                proof {
                    assert(self@ =~= step_percent(m0));
                }
            },
            Some(cur) => {
                let r = percent(&cur);
                self.update_display(Some(r));
                self.has_decimal = true;
                proof {
                    lemma_numeral_roundtrip(r.m());
                    assert(self@ =~= step_percent(m0));
                }
            },
        }
    }

    /// Dispatches one message from the key grid to the handler for
    /// the pressed button.
    pub fn update(&mut self, message: Message)
        requires
            old(self).wf(),
            valid_message(message),
        ensures
            final(self).wf(),
            final(self)@ == step_message(old(self)@, message),
    {
        match message {
            Message::ButtonPressed(button_type) => {
                match button_type {
                    ButtonType::Clear => {
                        self.clear();
                    },
                    ButtonType::Number(digit) => {
                        self.input_number(digit);
                    },
                    ButtonType::Decimal => {
                        self.input_decimal();
                    },
                    ButtonType::Operator(op) => {
                        self.input_operator(op);
                    },
                    ButtonType::Equals => {
                        self.execute_calculation();
                    },
                    ButtonType::Sign => {
                        self.toggle_sign();
                    },
                    ButtonType::Percent => {
                        self.calculate_percent();
                    },
                }
            },
        }
    }

    /// The mantissa of the displayed value, in units of `10^-10`; zero
    /// in the error state and when the displayed numeral lies outside
    /// the representable range.
    pub fn get_display_value(&self) -> (r: i128)
        requires
            self.wf(),
        ensures
            r as int == match self@.value {
                Some(v) => v,
                None => 0,
            },
    {
        match self.current {
            Some(n) => {
                let mg = n.magnitude as i128;
                if n.negative {
                    -mg
                } else {
                    mg
                }
            },
            None => 0,
        }
    }
}

} // verus!
