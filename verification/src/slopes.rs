//! Derivatives of functions of one number.
use crate::corners::{greater, lesser};
use crate::numbers::Numbers;
use crate::op::{Binary, OpModel, Unary};
use crate::overlaps::exact;
use vstd::prelude::*;

verus! {

/// The magnitude of a number.
pub open spec fn magnitude(a: real) -> real {
    if a >= 0 as real {
        a
    } else {
        -a
    }
}

/// Whether a function departs from a line, at a distance from a point, by at
/// most a fraction of the distance.
pub open spec fn close(
    f: spec_fn(real) -> real,
    x: real,
    slope: real,
    fraction: real,
    distance: real,
) -> bool {
    magnitude(f(x + distance) - f(x) - slope * distance) <= fraction * magnitude(distance)
}

/// Whether a function departs from a line, around a point, by at most a fraction
/// of the distance to it.
pub open spec fn flat(
    f: spec_fn(real) -> real,
    x: real,
    slope: real,
    fraction: real,
    radius: real,
) -> bool {
    &&& radius > 0 as real
    &&& forall|distance: real|
        -radius < distance < radius ==> #[trigger] close(f, x, slope, fraction, distance)
}

/// Whether a function departs from a line, close enough to a point, by at most a
/// fraction of the distance to it.
pub open spec fn approaches(f: spec_fn(real) -> real, x: real, slope: real, fraction: real) -> bool {
    exists|radius: real| #[trigger] flat(f, x, slope, fraction, radius)
}

/// Whether a function has a derivative at a point.
pub open spec fn has_slope(f: spec_fn(real) -> real, x: real, slope: real) -> bool {
    forall|fraction: real|
        fraction > 0 as real ==> #[trigger] approaches(f, x, slope, fraction)
}

proof fn lemma_apart(p: real, q: real, u: real, e: real, h: real)
    by (nonlinear_arith)
    requires
        h > 0 as real,
        e > 0 as real,
        u - p * h <= e * h,
        -(u - q * h) <= e * h,
    ensures
        q - p <= 2 as real * e,
{
    assert((q - p) * h <= (2 as real * e) * h);
}

/// A function has at most one derivative at a point.
pub proof fn slopes_are_unique(f: spec_fn(real) -> real, x: real, p: real, q: real)
    requires
        has_slope(f, x, p),
        has_slope(f, x, q),
    ensures
        p == q,
{
    if p != q {
        let e = magnitude(p - q) / 4 as real;
        assert(e > 0 as real);
        assert(approaches(f, x, p, e) && approaches(f, x, q, e));
        let r = choose|r: real| #[trigger] flat(f, x, p, e, r);
        let s = choose|s: real| #[trigger] flat(f, x, q, e, s);
        let h = lesser(r, s) / 2 as real;
        assert(close(f, x, p, e, h));
        assert(close(f, x, q, e, h));
        let u = f(x + h) - f(x);
        lemma_apart(p, q, u, e, h);
        lemma_apart(q, p, u, e, h);
    }
}

proof fn lemma_line(slope: real, offset: real, x: real, distance: real)
    by (nonlinear_arith)
    ensures
        (slope * (x + distance) + offset) - (slope * x + offset) - slope * distance == 0 as real,
{
}

proof fn lemma_fraction(fraction: real, distance: real)
    by (nonlinear_arith)
    requires
        fraction > 0 as real,
        distance >= 0 as real,
    ensures
        fraction * distance >= 0 as real,
{
}

/// A function that is a line around a point has the slope of the line there.
pub(crate) proof fn lemma_linear(
    f: spec_fn(real) -> real,
    x: real,
    slope: real,
    offset: real,
    radius: real,
)
    requires
        radius > 0 as real,
        forall|t: real| x - radius < t < x + radius ==> #[trigger] f(t) == slope * t + offset,
    ensures
        has_slope(f, x, slope),
{
    assert forall|fraction: real| fraction > 0 as real implies #[trigger] approaches(
        f,
        x,
        slope,
        fraction,
    ) by {
        assert forall|distance: real| -radius < distance < radius implies #[trigger] close(
            f,
            x,
            slope,
            fraction,
            distance,
        ) by {
            assert(f(x + distance) == slope * (x + distance) + offset);
            assert(f(x) == slope * x + offset);
            lemma_line(slope, offset, x, distance);
            lemma_fraction(fraction, magnitude(distance));
        }
        assert(flat(f, x, slope, fraction, radius));
    }
}

impl Numbers {
    /// A function of one number, as a curve.
    pub open spec fn curve(self, op: Unary) -> spec_fn(real) -> real {
        |t: real| self.function(op, t)
    }

    /// An activation, as a curve.
    pub open spec fn activation(self, op: OpModel) -> spec_fn(real) -> real {
        |t: real|
            match op {
                OpModel::Relu => greater(t, 0 as real),
                OpModel::Softplus => (self.log)(1 as real + (self.exp)(t)),
                _ => self.logistic(t),
            }
    }

    /// Where a function of one number has a derivative.
    pub open spec fn smooth_at(self, op: Unary, a: real) -> bool {
        match op {
            Unary::Log | Unary::Sqrt | Unary::Rsqrt => a > 0 as real,
            Unary::Log1p => a > -(1 as real),
            Unary::Abs => a != 0 as real,
            _ => true,
        }
    }

    /// Whether the elementary functions have the derivatives of analysis.
    pub open spec fn smooth(self) -> bool {
        &&& forall|a: real| has_slope(self.curve(Unary::Exp), a, #[trigger] (self.exp)(a))
        &&& forall|a: real|
            a > 0 as real ==> has_slope(#[trigger] self.curve_at(Unary::Log, a), a, 1 as real / a)
        &&& forall|a: real|
            a > -(1 as real) ==> has_slope(
                #[trigger] self.curve_at(Unary::Log1p, a),
                a,
                1 as real / (1 as real + a),
            )
        &&& forall|a: real|
            has_slope(#[trigger] self.curve_at(Unary::Expm1, a), a, (self.exp)(a))
        &&& forall|a: real|
            a > 0 as real ==> has_slope(
                #[trigger] self.curve_at(Unary::Sqrt, a),
                a,
                1 as real / (2 as real * (self.sqrt)(a)),
            )
        &&& forall|a: real|
            a > 0 as real ==> has_slope(
                #[trigger] self.curve_at(Unary::Rsqrt, a),
                a,
                -(1 as real / (2 as real * (a * (self.sqrt)(a)))),
            )
        &&& forall|a: real|
            has_slope(
                #[trigger] self.curve_at(Unary::Tanh, a),
                a,
                1 as real - self.tanh(a) * self.tanh(a),
            )
        &&& forall|a: real|
            has_slope(#[trigger] self.curve_at(Unary::Sin, a), a, (self.cos)(a))
        &&& forall|a: real|
            has_slope(#[trigger] self.curve_at(Unary::Cos, a), a, -(self.sin)(a))
        &&& forall|a: real|
            has_slope(
                #[trigger] self.activation_at(OpModel::Softplus, a),
                a,
                self.logistic(a),
            )
        &&& forall|a: real|
            has_slope(
                #[trigger] self.activation_at(OpModel::Sigmoid, a),
                a,
                self.logistic(a) * (1 as real - self.logistic(a)),
            )
        &&& forall|a: real, b: real|
            b != 0 as real ==> has_slope(
                #[trigger] quotient_at(a, b),
                b,
                -(a / (b * b)),
            )
    }

    /// The curve of a function, at a point.
    pub open spec fn curve_at(self, op: Unary, a: real) -> spec_fn(real) -> real {
        self.curve(op)
    }

    /// The curve of an activation, at a point.
    pub open spec fn activation_at(self, op: OpModel, a: real) -> spec_fn(real) -> real {
        self.activation(op)
    }
}

/// A combination of two numbers as a curve in the first.
pub open spec fn left_curve(op: Binary, b: real) -> spec_fn(real) -> real {
    |t: real| exact(op, t, b)
}

/// A combination of two numbers as a curve in the second.
pub open spec fn right_curve(op: Binary, a: real) -> spec_fn(real) -> real {
    |t: real| exact(op, a, t)
}

/// A quotient as a curve in its divisor, at a point.
pub open spec fn quotient_at(a: real, b: real) -> spec_fn(real) -> real {
    right_curve(Binary::Div, a)
}

proof fn lemma_over(t: real, b: real)
    by (nonlinear_arith)
    requires
        b != 0 as real,
    ensures
        t / b == (1 as real / b) * t,
{
}

/// The derivative of a combination in its first operand, where it is a line.
pub(crate) proof fn lemma_left_slope(op: Binary, a: real, b: real)
    requires
        op == Binary::Maximum || op == Binary::Minimum ==> a != b,
        op == Binary::Div ==> b != 0 as real,
    ensures
        has_slope(
            left_curve(op, b),
            a,
            match op {
                Binary::Add | Binary::Sub => 1 as real,
                Binary::Mul => b,
                Binary::Div => 1 as real / b,
                Binary::Maximum => if a > b {
                    1 as real
                } else {
                    0 as real
                },
                Binary::Minimum => if a < b {
                    1 as real
                } else {
                    0 as real
                },
            },
        ),
{
    let f = left_curve(op, b);
    let r = if a != b {
        magnitude(a - b)
    } else {
        1 as real
    };
    match op {
        Binary::Add => {
            assert(forall|t: real| #[trigger] f(t) == 1 as real * t + b);
            lemma_linear(f, a, 1 as real, b, r);
        },
        Binary::Sub => {
            assert(forall|t: real| #[trigger] f(t) == 1 as real * t + (-b));
            lemma_linear(f, a, 1 as real, -b, r);
        },
        Binary::Mul => {
            assert forall|t: real| #[trigger] f(t) == b * t + 0 as real by {
                lemma_swap(t, b);
            }
            lemma_linear(f, a, b, 0 as real, r);
        },
        Binary::Div => {
            assert forall|t: real| #[trigger] f(t) == (1 as real / b) * t + 0 as real by {
                lemma_over(t, b);
            }
            lemma_linear(f, a, 1 as real / b, 0 as real, r);
        },
        _ => {
            if (a > b) == (op == Binary::Maximum) {
                assert(forall|t: real| a - r < t < a + r ==> #[trigger] f(t) == 1 as real * t + 0 as real);
                lemma_linear(f, a, 1 as real, 0 as real, r);
            } else {
                assert(forall|t: real| a - r < t < a + r ==> #[trigger] f(t) == 0 as real * t + b);
                lemma_linear(f, a, 0 as real, b, r);
            }
        },
    }
}

pub(crate) proof fn lemma_swap(a: real, b: real)
    by (nonlinear_arith)
    ensures
        a * b == b * a,
{
}

/// The derivative of a combination in its second operand, where it is a line.
pub(crate) proof fn lemma_right_slope(op: Binary, a: real, b: real)
    requires
        op == Binary::Maximum || op == Binary::Minimum ==> a != b,
        op != Binary::Div,
    ensures
        has_slope(
            right_curve(op, a),
            b,
            match op {
                Binary::Add => 1 as real,
                Binary::Sub => -(1 as real),
                Binary::Mul => a,
                Binary::Maximum => if b > a {
                    1 as real
                } else {
                    0 as real
                },
                _ => if b < a {
                    1 as real
                } else {
                    0 as real
                },
            },
        ),
{
    let f = right_curve(op, a);
    let r = if a != b {
        magnitude(a - b)
    } else {
        1 as real
    };
    match op {
        Binary::Add => {
            assert(forall|t: real| #[trigger] f(t) == 1 as real * t + a);
            lemma_linear(f, b, 1 as real, a, r);
        },
        Binary::Sub => {
            assert(forall|t: real| #[trigger] f(t) == -(1 as real) * t + a);
            lemma_linear(f, b, -(1 as real), a, r);
        },
        Binary::Mul => {
            assert(forall|t: real| #[trigger] f(t) == a * t + 0 as real);
            lemma_linear(f, b, a, 0 as real, r);
        },
        _ => {
            if (b > a) == (op == Binary::Maximum) {
                assert(forall|t: real| b - r < t < b + r ==> #[trigger] f(t) == 1 as real * t + 0 as real);
                lemma_linear(f, b, 1 as real, 0 as real, r);
            } else {
                assert(forall|t: real| b - r < t < b + r ==> #[trigger] f(t) == 0 as real * t + a);
                lemma_linear(f, b, 0 as real, a, r);
            }
        },
    }
}

/// The derivative of a rectifier, beside zero.
pub(crate) proof fn lemma_rectifier_slope(n: Numbers, a: real)
    requires
        a != 0 as real,
    ensures
        has_slope(
            n.activation(OpModel::Relu),
            a,
            if a > 0 as real {
                1 as real
            } else {
                0 as real
            },
        ),
{
    let f = n.activation(OpModel::Relu);
    let r = magnitude(a);
    if a > 0 as real {
        assert(forall|t: real| a - r < t < a + r ==> #[trigger] f(t) == 1 as real * t + 0 as real);
        lemma_linear(f, a, 1 as real, 0 as real, r);
    } else {
        assert(forall|t: real| a - r < t < a + r ==> #[trigger] f(t) == 0 as real * t + 0 as real);
        lemma_linear(f, a, 0 as real, 0 as real, r);
    }
}

/// The derivatives of a negation, and of a magnitude beside zero.
pub(crate) proof fn lemma_sign_slope(n: Numbers, op: Unary, a: real)
    requires
        op == Unary::Neg || (op == Unary::Abs && a != 0 as real),
    ensures
        has_slope(
            n.curve(op),
            a,
            if op == Unary::Abs && a > 0 as real {
                1 as real
            } else {
                -(1 as real)
            },
        ),
{
    let f = n.curve(op);
    if op == Unary::Abs && a > 0 as real {
        assert(forall|t: real|
            a - a < t < a + a ==> #[trigger] f(t) == 1 as real * t + 0 as real);
        lemma_linear(f, a, 1 as real, 0 as real, a);
    } else {
        let r = if op == Unary::Abs {
            magnitude(a)
        } else {
            1 as real
        };
        assert(forall|t: real|
            a - r < t < a + r ==> #[trigger] f(t) == -(1 as real) * t + 0 as real);
        lemma_linear(f, a, -(1 as real), 0 as real, r);
    }
}

} // verus!
