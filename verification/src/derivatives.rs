//! Derivative rules as numbers: what an operation contributes to an operand is
//! its derivative there, times the gradient of its result.
use crate::dtype::is_floating;
use crate::elements::within;
use crate::facts::group_extents;
use crate::gradients::{
    binary_gradients, consistent, extremum_gradients, is_rounding, one_part, relu_gradient, rule,
    select_gradients, sigmoid_gradient, unary_gradient, TWO_OVER_ROOT_PI,
};
use crate::graph::{Expr, Value};
use crate::numbers::{encoded, group_numbers, group_operands, lemma_powers, Numbers};
use crate::op::{Binary, OpModel, Scalar, Unary, F32_HALF, F32_NEG_HALF, F32_ZERO};
use crate::slopes::{
    has_slope, left_curve, lemma_left_slope, lemma_rectifier_slope, lemma_right_slope,
    lemma_sign_slope, quotient_at, right_curve, slopes_are_unique,
};
use vstd::prelude::*;

verus! {

/// Whether a gradient is offered to an elementwise operation, at an index.
pub open spec fn offered(v: Value, dy: Value, index: Seq<int>) -> bool {
    &&& consistent(v)
    &&& dy.dims == v.dims
    &&& is_floating(dy.dtype)
    &&& within(v.dims, index)
    &&& forall|k: int| 0 <= k < rule(v, dy).len() ==> (#[trigger] rule(v, dy)[k]).1 is Is
}

/// An elementwise result, as the number that it is.
proof fn lemma_result(n: Numbers, v: Value, index: Seq<int>)
    requires
        n.computes(),
        consistent(v),
        within(v.dims, index),
        v.op is Unary || v.op is Relu || v.op is Softplus || v.op is Sigmoid,
    ensures
        v.args.len() == 1,
        v.args[0].dims == v.dims,
        v.op matches OpModel::Unary(op) ==> n.of(v, index) == n.function(
            op,
            n.of(v.args[0], index),
        ),
        v.op is Relu || v.op is Softplus || v.op is Sigmoid ==> n.of(v, index) == n.activation(
            v.op,
        )(n.of(v.args[0], index)),
{
    reveal(Numbers::obeys);
    assert(n.obeys(v, index));
}

proof fn lemma_halved(d: real, y: real, h: real)
    by (nonlinear_arith)
    requires
        y != 0 as real,
        2 as real * h == 1 as real,
    ensures
        (d / y) * h == d * (1 as real / (2 as real * y)),
{
}

proof fn lemma_divided(d: real, y: real)
    by (nonlinear_arith)
    requires
        y != 0 as real,
    ensures
        d / y == d * (1 as real / y),
{
}

proof fn lemma_root_positive(s: real, a: real)
    by (nonlinear_arith)
    requires
        a > 0 as real,
        s >= 0 as real,
        s * s == a,
    ensures
        s > 0 as real,
{
}

proof fn lemma_cubed(d: real, s: real, a: real, h: real)
    by (nonlinear_arith)
    requires
        s > 0 as real,
        s * s == a,
        2 as real * h == -(1 as real),
    ensures
        (d * (((1 as real / s) * (1 as real / s)) * (1 as real / s))) * h == d * (-(1 as real / (
        2 as real * (a * s)))),
{
    let r = 1 as real / s;
    assert(r * s == 1 as real);
    assert((r * r * r) * (s * s * s) == (r * s) * (r * s) * (r * s));
    assert((r * r * r) * (a * s) == 1 as real);
    assert(a * s > 0 as real);
    assert(r * r * r == 1 as real / (a * s));
    assert((d * (r * r * r)) * h == d * ((r * r * r) * h));
    assert((1 as real / (a * s)) * h == -(1 as real / (2 as real * (a * s))));
}

/// The gradient of a function of one number is its derivative there, times the
/// gradient of its result.
#[verifier::rlimit(40)]
pub proof fn gradients_of_functions_are_derivatives(
    n: Numbers,
    v: Value,
    dy: Value,
    op: Unary,
    slope: real,
    index: Seq<int>,
)
    requires
        n.lawful(),
        n.smooth(),
        offered(v, dy, index),
        v.op == OpModel::Unary(op),
        !is_rounding(op),
        op != Unary::Erf,
        n.smooth_at(op, n.of(v.args[0], index)),
        has_slope(n.curve(op), n.of(v.args[0], index), slope),
    ensures
        rule(v, dy).len() == 1,
        rule(v, dy)[0].0 == 0,
        n.at(rule(v, dy)[0].1, index) == n.of(dy, index) * slope,
{
    broadcast use {group_extents, group_operands, group_numbers};

    lemma_result(n, v, index);
    let x = Expr::Is(v.args[0]);
    let y = Expr::Is(v);
    let d = Expr::Is(dy);
    let a = n.of(v.args[0], index);
    let g = n.of(dy, index);
    let part = unary_gradient(op, x, y, d);
    assert(rule(v, dy) == one_part(0, part)) by {
        reveal(rule);
    }
    assert(rule(v, dy)[0].1 is Is);
    reveal(unary_gradient);
    lemma_units(g, slope);
    match op {
        Unary::Neg => {
            lemma_sign_slope(n, op, a);
            slopes_are_unique(n.curve(op), a, slope, -(1 as real));
            assert(n.at(part, index) == g * slope);
        },
        Unary::Sin => {
            assert(has_slope(n.curve_at(op, a), a, (n.cos)(a)));
            slopes_are_unique(n.curve(op), a, slope, (n.cos)(a));
            assert(n.at(part, index) == g * slope);
        },
        Unary::Cos => {
            assert(has_slope(n.curve_at(op, a), a, -(n.sin)(a)));
            slopes_are_unique(n.curve(op), a, slope, -(n.sin)(a));
            lemma_negated(g, (n.sin)(a));
            assert(n.at(part, index) == g * slope);
        },
        Unary::Exp => {
            slopes_are_unique(n.curve(op), a, slope, (n.exp)(a));
            assert(n.at(part, index) == g * slope);
        },
        Unary::Expm1 => {
            assert(has_slope(n.curve_at(op, a), a, (n.exp)(a)));
            slopes_are_unique(n.curve(op), a, slope, (n.exp)(a));
            assert(n.at(part, index) == g * slope);
        },
        Unary::Log => {
            assert(has_slope(n.curve_at(op, a), a, 1 as real / a));
            slopes_are_unique(n.curve(op), a, slope, 1 as real / a);
            lemma_divided(g, a);
            assert(n.at(part, index) == g * slope);
        },
        Unary::Log1p => {
            assert(has_slope(n.curve_at(op, a), a, 1 as real / (1 as real + a)));
            slopes_are_unique(n.curve(op), a, slope, 1 as real / (1 as real + a));
            lemma_divided(g, 1 as real + a);
            assert(n.at(part, index) == g * slope);
        },
        Unary::Sqrt => {
            assert(has_slope(n.curve_at(op, a), a, 1 as real / (2 as real * (n.sqrt)(a))));
            slopes_are_unique(n.curve(op), a, slope, 1 as real / (2 as real * (n.sqrt)(a)));
            lemma_root_positive((n.sqrt)(a), a);
            lemma_halved(g, (n.sqrt)(a), (n.literal)(F32_HALF));
            assert(n.at(part, index) == g * slope);
        },
        Unary::Rsqrt => {
            let s = (n.sqrt)(a);
            let k = -(1 as real / (2 as real * (a * s)));
            assert(has_slope(n.curve_at(op, a), a, k));
            slopes_are_unique(n.curve(op), a, slope, k);
            lemma_root_positive(s, a);
            lemma_cubed(g, s, a, (n.literal)(F32_NEG_HALF));
            assert(n.at(y.mul(y), index) == (1 as real / s) * (1 as real / s));
            assert(n.at(y.mul(y).mul(y), index) == ((1 as real / s) * (1 as real / s)) * (1 as real
                / s));
            assert(n.at(part, index) == g * slope);
        },
        Unary::Tanh => {
            let t = n.tanh(a);
            assert(has_slope(n.curve_at(op, a), a, 1 as real - t * t));
            slopes_are_unique(n.curve(op), a, slope, 1 as real - t * t);
            assert(n.at(y.mul(y), index) == t * t);
            assert(n.at(part, index) == g * slope);
        },
        _ => {
            lemma_sign_slope(n, op, a);
            let k = if a > 0 as real {
                1 as real
            } else {
                -(1 as real)
            };
            slopes_are_unique(n.curve(op), a, slope, k);
            assert(n.at(part, index) == g * slope);
        },
    }
}

proof fn lemma_units(g: real, s: real)
    by (nonlinear_arith)
    ensures
        s == 1 as real ==> g * s == g,
        s == 0 as real ==> g * s == 0 as real,
        s == -(1 as real) ==> g * s == -g,
{
}

proof fn lemma_negated(a: real, b: real)
    by (nonlinear_arith)
    ensures
        -(a * b) == a * (-b),
{
}

/// The gradient of the error function is the exponential of minus the squared
/// argument, times `2 / sqrt(pi)`, times the gradient of its result.
#[verifier::rlimit(40)]
pub proof fn gradients_of_error_functions_are_gaussian(
    n: Numbers,
    v: Value,
    dy: Value,
    index: Seq<int>,
)
    requires
        n.lawful(),
        offered(v, dy, index),
        v.op == OpModel::Unary(Unary::Erf),
    ensures
        rule(v, dy).len() == 1,
        rule(v, dy)[0].0 == 0,
        n.at(rule(v, dy)[0].1, index) == n.of(dy, index) * (n.exp)(
            -(n.of(v.args[0], index) * n.of(v.args[0], index)),
        ) * (n.literal)(TWO_OVER_ROOT_PI),
        1128379 as real <= 1000000 as real * (n.literal)(TWO_OVER_ROOT_PI) <= 1128380 as real,
{
    broadcast use {group_extents, group_operands, group_numbers};

    lemma_result(n, v, index);
    let x = Expr::Is(v.args[0]);
    let d = Expr::Is(dy);
    let a = n.of(v.args[0], index);
    let part = unary_gradient(Unary::Erf, x, Expr::Is(v), d);
    assert(rule(v, dy) == one_part(0, part)) by {
        reveal(rule);
    }
    assert(rule(v, dy)[0].1 is Is);
    reveal(unary_gradient);
    let c = (n.literal)(TWO_OVER_ROOT_PI);
    assert(n.at(x.mul(x), index) == a * a);
    assert(n.at(part, index) == n.of(dy, index) * (n.exp)(-(a * a)) * c);
    lemma_powers();
    assert(encoded(TWO_OVER_ROOT_PI, c));
    assert(c * 8388608 as real == 9465530 as real);
}

/// Where the operand of an absolute value is zero, its gradient is zero.
#[verifier::rlimit(40)]
pub proof fn gradients_of_magnitudes_vanish_at_zero(
    n: Numbers,
    v: Value,
    dy: Value,
    index: Seq<int>,
)
    requires
        n.lawful(),
        offered(v, dy, index),
        v.op == OpModel::Unary(Unary::Abs),
        n.of(v.args[0], index) == 0 as real,
    ensures
        n.at(rule(v, dy)[0].1, index) == 0 as real,
{
    broadcast use {group_extents, group_operands, group_numbers};

    lemma_result(n, v, index);
    let part = unary_gradient(Unary::Abs, Expr::Is(v.args[0]), Expr::Is(v), Expr::Is(dy));
    assert(rule(v, dy) == one_part(0, part)) by {
        reveal(rule);
    }
    assert(rule(v, dy)[0].1 is Is);
    reveal(unary_gradient);
}

/// Rounding contributes nothing.
pub proof fn rounding_has_no_gradient(v: Value, dy: Value, op: Unary)
    requires
        v.op == OpModel::Unary(op),
        is_rounding(op),
    ensures
        rule(v, dy).len() == 0,
{
    reveal(rule);
}

/// The gradient of an activation is its derivative there, times the gradient of
/// its result. That of a rectifier is zero at zero.
#[verifier::rlimit(40)]
pub proof fn gradients_of_activations_are_derivatives(
    n: Numbers,
    v: Value,
    dy: Value,
    slope: real,
    index: Seq<int>,
)
    requires
        n.lawful(),
        n.smooth(),
        offered(v, dy, index),
        v.op is Relu || v.op is Softplus || v.op is Sigmoid,
        v.op is Relu && n.of(v.args[0], index) == 0 as real ==> slope == 0 as real,
        v.op is Relu && n.of(v.args[0], index) == 0 as real || has_slope(
            n.activation(v.op),
            n.of(v.args[0], index),
            slope,
        ),
    ensures
        rule(v, dy).len() == 1,
        rule(v, dy)[0].0 == 0,
        n.at(rule(v, dy)[0].1, index) == n.of(dy, index) * slope,
{
    broadcast use {group_extents, group_operands, group_numbers};

    lemma_result(n, v, index);
    let x = Expr::Is(v.args[0]);
    let y = Expr::Is(v);
    let d = Expr::Is(dy);
    let a = n.of(v.args[0], index);
    let g = n.of(dy, index);
    reveal(rule);
    assert(rule(v, dy)[0].1 is Is);
    lemma_units(g, slope);
    match v.op {
        OpModel::Relu => {
            assert(rule(v, dy) == one_part(0, relu_gradient(x, d)));
            let zero = x.filled(Scalar::Bits(F32_ZERO));
            assert(n.at(zero, index) == 0 as real);
            assert(n.at(x.gt_mask(zero), index) == if a > 0 as real { 1 as real } else { 0 as real });
            assert(n.at(relu_gradient(x, d), index) == if a > 0 as real { g } else { 0 as real });
            if a != 0 as real {
                lemma_rectifier_slope(n, a);
                slopes_are_unique(
                    n.activation(OpModel::Relu),
                    a,
                    slope,
                    if a > 0 as real {
                        1 as real
                    } else {
                        0 as real
                    },
                );
            }
            assert(n.at(rule(v, dy)[0].1, index) == g * slope);
        },
        OpModel::Softplus => {
            assert(rule(v, dy) == one_part(0, d.mul(x.sigmoid())));
            assert(has_slope(n.activation_at(v.op, a), a, n.logistic(a)));
            slopes_are_unique(n.activation(v.op), a, slope, n.logistic(a));
            assert(n.at(rule(v, dy)[0].1, index) == g * slope);
        },
        _ => {
            assert(rule(v, dy) == one_part(0, sigmoid_gradient(x, y, d)));
            let p = n.logistic(a);
            let k = p * (1 as real - p);
            assert(v.op == OpModel::Sigmoid);
            assert(has_slope(n.activation_at(OpModel::Sigmoid, a), a, k));
            slopes_are_unique(n.activation(v.op), a, slope, k);
            assert((n.exp)(a + (-a)) == (n.exp)(a) * (n.exp)(-a));
            assert(a + (-a) == 0 as real);
            assert(-(-a) == a);
            lemma_complement((n.exp)(a), (n.exp)(-a));
            let complement = x.neg().sigmoid();
            assert(complement is Is);
            assert(n.at(x.neg(), index) == -a);
            assert(n.at(complement, index) == n.logistic(-a));
            let q = n.logistic(-a);
            assert(q == 1 as real - p);
            assert(n.at(d.mul(y), index) == g * p);
            assert(n.at(d.mul(y).mul(complement), index) == (g * p) * q);
            lemma_regrouped(g, p, q);
            assert(n.at(rule(v, dy)[0].1, index) == g * slope);
        },
    }
}

proof fn lemma_complement(e: real, f: real)
    by (nonlinear_arith)
    requires
        e > 0 as real,
        f > 0 as real,
        e * f == 1 as real,
    ensures
        1 as real / (1 as real + e) == 1 as real - 1 as real / (1 as real + f),
{
    let p = 1 as real / (1 as real + f);
    let q = 1 as real / (1 as real + e);
    assert(p * (1 as real + f) == 1 as real);
    assert(q * (1 as real + e) == 1 as real);
    assert((p + q) * ((1 as real + f) * (1 as real + e)) == (1 as real + e) + (1 as real + f));
    assert((1 as real + f) * (1 as real + e) == 1 as real + e + f + 1 as real);
    assert((1 as real + f) * (1 as real + e) > 0 as real);
}

proof fn lemma_regrouped(a: real, b: real, c: real)
    by (nonlinear_arith)
    ensures
        (a * b) * c == a * (b * c),
{
}

/// A combination of two numbers has, in each operand, its derivative there times
/// the gradient of its result.
#[verifier::rlimit(40)]
pub proof fn gradients_of_combinations_are_derivatives(
    n: Numbers,
    v: Value,
    dy: Value,
    op: Binary,
    slopes: (real, real),
    index: Seq<int>,
)
    requires
        n.lawful(),
        n.smooth(),
        offered(v, dy, index),
        v.op == OpModel::Binary(op),
        op == Binary::Maximum || op == Binary::Minimum ==> n.of(v.args[0], index) != n.of(
            v.args[1],
            index,
        ),
        op == Binary::Div ==> n.of(v.args[1], index) != 0 as real,
        has_slope(left_curve(op, n.of(v.args[1], index)), n.of(v.args[0], index), slopes.0),
        has_slope(right_curve(op, n.of(v.args[0], index)), n.of(v.args[1], index), slopes.1),
    ensures
        rule(v, dy).len() == 2,
        rule(v, dy)[0].0 == 0,
        rule(v, dy)[1].0 == 1,
        n.at(rule(v, dy)[0].1, index) == n.of(dy, index) * slopes.0,
        n.at(rule(v, dy)[1].1, index) == n.of(dy, index) * slopes.1,
{
    broadcast use {group_extents, group_operands, group_numbers};

    let x = Expr::Is(v.args[0]);
    let y = Expr::Is(v.args[1]);
    let d = Expr::Is(dy);
    let (a, b) = (n.of(v.args[0], index), n.of(v.args[1], index));
    let g = n.of(dy, index);
    assert(v.args.len() == 2 && v.args[0].dims == v.dims && v.args[1].dims == v.dims);
    reveal(rule);
    assert(rule(v, dy) == binary_gradients(op, x, y, d));
    reveal(extremum_gradients);
    assert(rule(v, dy)[0].1 is Is && rule(v, dy)[1].1 is Is);
    lemma_left_slope(op, a, b);
    lemma_units(g, slopes.0);
    lemma_units(g, slopes.1);
    if op == Binary::Div {
        assert(has_slope(quotient_at(a, b), b, -(a / (b * b))));
        slopes_are_unique(right_curve(op, a), b, slopes.1, -(a / (b * b)));
        slopes_are_unique(left_curve(op, b), a, slopes.0, 1 as real / b);
        lemma_divided(g, b);
        assert(n.at(x.div(y), index) == a / b);
        assert(n.at(d.mul(x.div(y)), index) == g * (a / b));
        assert(n.at(d.mul(x.div(y)).div(y), index) == (g * (a / b)) / b);
        lemma_quotient(g, a, b);
    } else {
        lemma_right_slope(op, a, b);
        let (p, q) = match op {
            Binary::Add => (1 as real, 1 as real),
            Binary::Sub => (1 as real, -(1 as real)),
            Binary::Mul => (b, a),
            Binary::Maximum => if a > b {
                (1 as real, 0 as real)
            } else {
                (0 as real, 1 as real)
            },
            _ => if a < b {
                (1 as real, 0 as real)
            } else {
                (0 as real, 1 as real)
            },
        };
        slopes_are_unique(left_curve(op, b), a, slopes.0, p);
        slopes_are_unique(right_curve(op, a), b, slopes.1, q);
    }
}

proof fn lemma_quotient(g: real, a: real, b: real)
    by (nonlinear_arith)
    requires
        b != 0 as real,
    ensures
        -((g * (a / b)) / b) == g * (-(a / (b * b))),
{
    let q = a / b;
    assert(q * b == a);
    assert(b * b != 0 as real);
    assert((a / (b * b)) * (b * b) == a);
    assert((q / b) * b == q);
    assert((q / b) * (b * b) == a);
    assert(q / b == a / (b * b));
    assert((g * q) / b == g * (q / b));
}

/// Equal operands of a maximum or a minimum share the gradient equally.
#[verifier::rlimit(40)]
pub proof fn ties_share_the_gradient(n: Numbers, v: Value, dy: Value, op: Binary, index: Seq<int>)
    requires
        n.lawful(),
        offered(v, dy, index),
        v.op == OpModel::Binary(op),
        op == Binary::Maximum || op == Binary::Minimum,
        n.of(v.args[0], index) == n.of(v.args[1], index),
    ensures
        2 as real * n.at(rule(v, dy)[0].1, index) == n.of(dy, index),
        2 as real * n.at(rule(v, dy)[1].1, index) == n.of(dy, index),
{
    broadcast use {group_extents, group_operands, group_numbers};

    let x = Expr::Is(v.args[0]);
    let y = Expr::Is(v.args[1]);
    let d = Expr::Is(dy);
    assert(v.args.len() == 2 && v.args[0].dims == v.dims && v.args[1].dims == v.dims);
    reveal(rule);
    assert(rule(v, dy) == binary_gradients(op, x, y, d));
    reveal(extremum_gradients);
    assert(rule(v, dy)[0].1 is Is && rule(v, dy)[1].1 is Is);
    lemma_twice(n.of(dy, index), (n.literal)(F32_HALF));
}

proof fn lemma_twice(g: real, h: real)
    by (nonlinear_arith)
    requires
        2 as real * h == 1 as real,
    ensures
        2 as real * (g * h) == g,
{
}

/// The gradient of a choice goes to the branch that was taken.
#[verifier::rlimit(40)]
pub proof fn choices_send_the_gradient_to_the_taken_branch(
    n: Numbers,
    v: Value,
    dy: Value,
    index: Seq<int>,
)
    requires
        n.lawful(),
        offered(v, dy, index),
        v.op is Select,
    ensures
        rule(v, dy).len() == 2,
        rule(v, dy)[0].0 == 1,
        rule(v, dy)[1].0 == 2,
        n.at(rule(v, dy)[0].1, index) == if n.of(v.args[0], index) != 0 as real {
            n.of(dy, index)
        } else {
            0 as real
        },
        n.at(rule(v, dy)[1].1, index) == if n.of(v.args[0], index) != 0 as real {
            0 as real
        } else {
            n.of(dy, index)
        },
{
    broadcast use {group_extents, group_operands, group_numbers};

    let d = Expr::Is(dy);
    reveal(rule);
    assert(rule(v, dy) == select_gradients(Expr::Is(v.args[0]), d));
    assert(rule(v, dy)[0].1 is Is && rule(v, dy)[1].1 is Is);
}

} // verus!
