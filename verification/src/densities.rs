//! What losses, log densities and activations are, as numbers.
use crate::corners::{greater, lesser};
use crate::dtype::is_floating;
use crate::elements::within;
use crate::facts::group_extents;
use crate::graph::Expr;
use crate::nn::NEG_HALF_LN_TAU;
use crate::numbers::{encoded, group_numbers, group_operands, lemma_powers, Numbers};
use crate::op::{Scalar, F32_HALF, F32_NEG_HALF, F32_ONE, F32_ZERO};
use crate::ops::{FRAC_1_SQRT_2, GELU_CUBIC, SQRT_2_OVER_PI};
use crate::slopes::{lemma_swap, magnitude};
use vstd::prelude::*;

verus! {

proof fn lemma_gaussian(d: real, e: real, f: real, h: real)
    by (nonlinear_arith)
    requires
        e > 0 as real,
        e * f == 1 as real,
        2 as real * h == -(1 as real),
    ensures
        ((d * f) * (d * f)) * h == -((d * d) / (2 as real * (e * e))),
{
    assert((d * f) * (d * f) * (e * e) == d * d * (e * f) * (e * f));
    assert((d * f) * (d * f) * (e * e) == d * d);
    assert(e * e > 0 as real);
    assert((d * f) * (d * f) == (d * d) / (e * e));
    assert(((d * f) * (d * f)) * h == -((d * d) / (e * e)) / 2 as real);
    assert((d * d) / (2 as real * (e * e)) == (d * d) / (e * e) / 2 as real);
}

/// The Gaussian log density is minus the squared deviation over twice the
/// variance, less the log standard deviation, up to the constant
/// `-ln(2 * pi) / 2`: the variance is the square of the exponential of the log
/// standard deviation.
#[verifier::rlimit(40)]
pub proof fn gaussian_log_densities_are_quadratic(
    n: Numbers,
    x: Expr,
    mean: Expr,
    log_std: Expr,
    index: Seq<int>,
)
    requires
        n.lawful(),
        x.normal_log_prob(mean, log_std) is Is,
        x->Is_0.dims.len() <= usize::MAX,
        within(x->Is_0.dims, index),
    ensures
        ({
            let deviation = n.at(x, index) - n.at(mean, index);
            let s = n.at(log_std, index);
            n.at(x.normal_log_prob(mean, log_std), index) == -((deviation * deviation) / (2 as real
                * ((n.exp)(s) * (n.exp)(s)))) - s + (n.literal)(NEG_HALF_LN_TAU)
        }),
        -(918939 as real) <= 1000000 as real * (n.literal)(NEG_HALF_LN_TAU) <= -(918938 as real),
{
    broadcast use {group_extents, group_operands, group_numbers};

    let s = n.at(log_std, index);
    let deviation = n.at(x, index) - n.at(mean, index);
    let normalized = x.sub(mean).mul(log_std.neg().exp());
    let squared = normalized.mul(normalized);
    let halved = squared.mul_scalar(Scalar::Bits(F32_NEG_HALF));
    assert(n.at(normalized, index) == deviation * (n.exp)(-s));
    assert((n.exp)(s + (-s)) == (n.exp)(s) * (n.exp)(-s));
    assert(s + (-s) == 0 as real);
    lemma_gaussian(deviation, (n.exp)(s), (n.exp)(-s), (n.literal)(F32_NEG_HALF));
    assert(n.at(squared, index) == (deviation * (n.exp)(-s)) * (deviation * (n.exp)(-s)));
    assert(n.at(halved, index) == n.at(squared, index) * (n.literal)(F32_NEG_HALF));
    lemma_powers();
    assert(encoded(NEG_HALF_LN_TAU, (n.literal)(NEG_HALF_LN_TAU)));
}

proof fn lemma_stretched(d: real, e: real, f: real)
    by (nonlinear_arith)
    requires
        e > 0 as real,
        f > 0 as real,
    ensures
        ((f * d) * (f * d)) / (2 as real * ((e * f) * (e * f))) == (d * d) / (2 as real * (e * e)),
{
    let q = (d * d) / (2 as real * (e * e));
    assert(e * e > 0 as real && f * f > 0 as real && (e * f) * (e * f) > 0 as real);
    assert(q * (2 as real * (e * e)) == d * d);
    assert((2 as real * ((e * f) * (e * f))) == (2 as real * (e * e)) * (f * f));
    assert(q * (2 as real * ((e * f) * (e * f))) == (f * d) * (f * d));
}

/// Stretching the deviation by a factor and the standard deviation with it
/// lowers the Gaussian log density by the logarithm of the factor.
pub proof fn gaussian_log_densities_follow_the_scale(
    n: Numbers,
    one: (Expr, Expr, Expr),
    other: (Expr, Expr, Expr),
    stretch: real,
    index: Seq<int>,
)
    requires
        n.lawful(),
        one.0.normal_log_prob(one.1, one.2) is Is,
        other.0.normal_log_prob(other.1, other.2) is Is,
        one.0->Is_0.dims.len() <= usize::MAX,
        other.0->Is_0.dims.len() <= usize::MAX,
        within(one.0->Is_0.dims, index),
        within(other.0->Is_0.dims, index),
        n.at(other.0, index) - n.at(other.1, index) == (n.exp)(stretch) * (n.at(one.0, index) - n.at(
            one.1,
            index,
        )),
        n.at(other.2, index) == n.at(one.2, index) + stretch,
    ensures
        n.at(other.0.normal_log_prob(other.1, other.2), index) == n.at(
            one.0.normal_log_prob(one.1, one.2),
            index,
        ) - stretch,
{
    gaussian_log_densities_are_quadratic(n, one.0, one.1, one.2, index);
    gaussian_log_densities_are_quadratic(n, other.0, other.1, other.2, index);
    let s = n.at(one.2, index);
    let d = n.at(one.0, index) - n.at(one.1, index);
    assert((n.exp)(s + stretch) == (n.exp)(s) * (n.exp)(stretch));
    lemma_stretched(d, (n.exp)(s), (n.exp)(stretch));
}

proof fn lemma_half(a: real, h: real)
    by (nonlinear_arith)
    requires
        2 as real * h == 1 as real,
    ensures
        2 as real * ((a * h) * a) == a * a,
        2 as real * (a * h) == a,
{
}

proof fn lemma_linear_loss(m: real, d: real, h: real)
    by (nonlinear_arith)
    requires
        2 as real * h == 1 as real,
    ensures
        2 as real * ((m - d * h) * d) == d * (2 as real * m - d),
{
}

/// The Huber loss is half the squared residual up to the limit, and beyond it
/// the line that continues it: with the limit as its slope, and with the same
/// value at the limit.
#[verifier::rlimit(40)]
pub proof fn huber_losses_are_quadratic_then_linear(
    n: Numbers,
    x: Expr,
    targets: Expr,
    delta: u32,
    index: Seq<int>,
)
    requires
        n.lawful(),
        x.huber_loss(targets, delta) is Is,
        x->Is_0.dims.len() <= usize::MAX,
        within(x->Is_0.dims, index),
    ensures
        ({
            let residual = n.at(x, index) - n.at(targets, index);
            let limit = (n.literal)(delta);
            let size = magnitude(residual);
            2 as real * n.at(x.huber_loss(targets, delta), index) == if size <= limit {
                residual * residual
            } else {
                limit * (2 as real * size - limit)
            }
        }),
{
    broadcast use {group_extents, group_operands, group_numbers};

    let residual = x.sub(targets);
    let size = residual.abs();
    let limit = x.filled(Scalar::Bits(delta));
    let quadratic = size.le_mask(limit);
    let zero = x.filled(Scalar::Bits(F32_ZERO));
    let safe = quadratic.select(residual, zero);
    let scaled = safe.mul_scalar(Scalar::Bits(F32_HALF));
    let squared = scaled.mul(safe);
    let half = limit.mul_scalar(Scalar::Bits(F32_HALF));
    let excess = size.sub(half);
    let linear = excess.mul_scalar(Scalar::Bits(delta));
    let h = (n.literal)(F32_HALF);
    let d = (n.literal)(delta);
    assert(x.huber_loss(targets, delta) == quadratic.select(squared, linear));
    assert(n.at(limit, index) == d);
    assert(n.at(half, index) == d * h);
    assert(n.at(linear, index) == (n.at(size, index) - d * h) * d);
    lemma_half(n.at(safe, index), h);
    lemma_linear_loss(n.at(size, index), d, h);
}

/// Inverted dropout divides what the mask keeps by the probability of keeping
/// it, and drops the rest.
#[verifier::rlimit(40)]
pub proof fn dropout_divides_what_it_keeps(
    n: Numbers,
    x: Expr,
    mask: Expr,
    probability: u32,
    index: Seq<int>,
)
    requires
        n.lawful(),
        x.dropout_with_mask(mask, probability) is Is,
        (n.literal)(probability) != 0 as real,
        x->Is_0.dims.len() <= usize::MAX,
        within(x->Is_0.dims, index),
    ensures
        n.at(x.dropout_with_mask(mask, probability), index) * (n.literal)(probability) == if n.at(
            mask,
            index,
        ) != 0 as real {
            n.at(x, index)
        } else {
            0 as real
        },
{
    broadcast use {group_extents, group_operands, group_numbers};

    let zero = x.filled(Scalar::Bits(F32_ZERO));
    let divisor = x.filled(Scalar::Bits(probability));
    let picked = mask.select(x, zero);
    assert(x.dropout_with_mask(mask, probability) == picked.div(divisor));
    assert(n.at(picked.div(divisor), index) == n.at(picked, index) / (n.literal)(probability));
    lemma_undivided(n.at(picked, index), (n.literal)(probability));
}

proof fn lemma_undivided(a: real, b: real)
    by (nonlinear_arith)
    requires
        b != 0 as real,
    ensures
        (a / b) * b == a,
{
}

/// The logarithm of an inverse is minus the logarithm.
pub(crate) proof fn lemma_log_inverse(n: Numbers, a: real, b: real)
    requires
        n.exponential(),
        a > 0 as real,
        a * b == 1 as real,
    ensures
        (n.log)(b) == -(n.log)(a),
{
    let l = (n.log)(a);
    assert((n.exp)(l + (-l)) == (n.exp)(l) * (n.exp)(-l));
    assert(l + (-l) == 0 as real);
    lemma_inverse_unique(a, b, (n.exp)(-l));
    assert((n.log)((n.exp)(-l)) == -l);
}

proof fn lemma_inverse_unique(a: real, b: real, c: real)
    by (nonlinear_arith)
    requires
        a > 0 as real,
        a * b == 1 as real,
        a * c == 1 as real,
    ensures
        b == c,
{
    assert(a * (b - c) == 0 as real);
}

/// Binary cross entropy is minus the expected log likelihood under the targets:
/// the logarithm of the logistic function for one outcome, of its complement for
/// the other.
#[verifier::rlimit(40)]
pub proof fn binary_cross_entropies_are_expected_log_likelihoods(
    n: Numbers,
    x: Expr,
    targets: Expr,
    index: Seq<int>,
)
    requires
        n.lawful(),
        x.binary_cross_entropy_with_logits(targets) is Is,
        x->Is_0.dims.len() <= usize::MAX,
        within(x->Is_0.dims, index),
    ensures
        ({
            let p = n.logistic(n.at(x, index));
            let t = n.at(targets, index);
            n.at(x.binary_cross_entropy_with_logits(targets), index) == -(t * (n.log)(p) + (1 as real
                - t) * (n.log)(1 as real - p))
        }),
{
    broadcast use {group_extents, group_operands, group_numbers};

    let a = n.at(x, index);
    let t = n.at(targets, index);
    let p = n.logistic(a);
    let (e, f) = ((n.exp)(a), (n.exp)(-a));
    assert((n.exp)(a + (-a)) == e * f);
    assert(a + (-a) == 0 as real);
    lemma_likelihoods(e, f);
    lemma_log_inverse(n, 1 as real + f, p);
    lemma_log_inverse(n, 1 as real + e, 1 as real - p);
    let positive = targets.mul(x.neg().softplus());
    let rest = targets.neg().add_scalar(Scalar::Bits(F32_ONE));
    let second = rest.mul(x.softplus());
    assert(x.binary_cross_entropy_with_logits(targets) == positive.add(second));
    assert(n.at(x.neg(), index) == -a);
    assert(n.at(x.neg().softplus(), index) == (n.log)(1 as real + f));
    assert(n.at(positive, index) == t * (n.log)(1 as real + f));
    assert(n.at(rest, index) == 1 as real - t);
    assert(n.at(second, index) == (1 as real - t) * (n.log)(1 as real + e));
    lemma_mixed(t, (n.log)(1 as real + f), (n.log)(1 as real + e));
}

proof fn lemma_mixed(t: real, a: real, b: real)
    by (nonlinear_arith)
    ensures
        t * a + (1 as real - t) * b == -(t * (-a) + (1 as real - t) * (-b)),
{
}

proof fn lemma_likelihoods(e: real, f: real)
    by (nonlinear_arith)
    requires
        e > 0 as real,
        f > 0 as real,
        e * f == 1 as real,
    ensures
        (1 as real + f) * (1 as real / (1 as real + f)) == 1 as real,
        (1 as real + e) * (1 as real - 1 as real / (1 as real + f)) == 1 as real,
{
    let p = 1 as real / (1 as real + f);
    assert(p * (1 as real + f) == 1 as real);
    assert((1 as real + e) * (1 as real - p) * (1 as real + f) == (1 as real + e) * ((1 as real + f)
        - 1 as real));
    assert((1 as real + e) * f == f + 1 as real);
}

/// Clamping gives the nearest number between the bounds.
#[verifier::rlimit(40)]
pub proof fn clamping_gives_the_nearest_number_between(
    n: Numbers,
    x: Expr,
    low: u32,
    high: u32,
    index: Seq<int>,
)
    requires
        n.lawful(),
        x.clamp(low, high) is Is,
        is_floating(x->Is_0.dtype),
        (n.literal)(low) <= (n.literal)(high),
        x->Is_0.dims.len() <= usize::MAX,
        within(x->Is_0.dims, index),
    ensures
        ({
            let (a, b) = ((n.literal)(low), (n.literal)(high));
            n.at(x.clamp(low, high), index) == if n.at(x, index) < a {
                a
            } else if n.at(x, index) > b {
                b
            } else {
                n.at(x, index)
            }
        }),
{
    broadcast use {group_extents, group_operands, group_numbers};

    let floor = x.filled(Scalar::Bits(low));
    let ceiling = x.filled(Scalar::Bits(high));
    let raised = x.maximum(floor);
    let bounded = raised.minimum(ceiling);
    assert(x.clamp(low, high) == bounded || x.clamp(low, high) == bounded.detach());
    assert(bounded is Is);
    assert(n.at(raised, index) == greater(n.at(x, index), (n.literal)(low)));
    assert(n.at(bounded, index) == lesser(n.at(raised, index), (n.literal)(high)));
}

/// A hard sigmoid is a line clamped between zero and one.
#[verifier::rlimit(40)]
pub proof fn hard_sigmoids_are_clamped_lines(
    n: Numbers,
    x: Expr,
    alpha: u32,
    beta: u32,
    index: Seq<int>,
)
    requires
        n.lawful(),
        x.hard_sigmoid(alpha, beta) is Is,
        x->Is_0.dims.len() <= usize::MAX,
        within(x->Is_0.dims, index),
    ensures
        ({
            let line = (n.literal)(alpha) * n.at(x, index) + (n.literal)(beta);
            n.at(x.hard_sigmoid(alpha, beta), index) == if line < 0 as real {
                0 as real
            } else if line > 1 as real {
                1 as real
            } else {
                line
            }
        }),
{
    broadcast use {group_extents, group_operands, group_numbers};

    let scaled = x.mul_scalar(Scalar::Bits(alpha));
    let line = scaled.add_scalar(Scalar::Bits(beta));
    assert(x.hard_sigmoid(alpha, beta) == line.clamp(F32_ZERO, F32_ONE));
    assert(line is Is);
    clamping_gives_the_nearest_number_between(n, line, F32_ZERO, F32_ONE, index);
    assert(n.at(scaled, index) == n.at(x, index) * (n.literal)(alpha));
    lemma_swap(n.at(x, index), (n.literal)(alpha));
}

/// The sigmoid linear unit weighs a number by its logistic function.
#[verifier::rlimit(40)]
pub proof fn sigmoid_linear_units_weigh_their_input(n: Numbers, x: Expr, index: Seq<int>)
    requires
        n.lawful(),
        x.silu() is Is,
        within(x->Is_0.dims, index),
    ensures
        n.at(x.silu(), index) * (1 as real + (n.exp)(-n.at(x, index))) == n.at(x, index),
{
    broadcast use {group_extents, group_operands, group_numbers};

    let a = n.at(x, index);
    assert(n.at(x.silu(), index) == a * n.logistic(a));
    lemma_weighed(a, (n.exp)(-a));
}

proof fn lemma_weighed(a: real, f: real)
    by (nonlinear_arith)
    requires
        f > 0 as real,
    ensures
        (a * (1 as real / (1 as real + f))) * (1 as real + f) == a,
{
}

/// The Gaussian error linear unit weighs a number by the normal distribution
/// function, of which the error function of the number over the root of two is
/// twice the excess over one half.
#[verifier::rlimit(40)]
pub proof fn gaussian_units_weigh_their_input(n: Numbers, x: Expr, index: Seq<int>)
    requires
        n.lawful(),
        x.gelu() is Is,
        x->Is_0.dims.len() <= usize::MAX,
        within(x->Is_0.dims, index),
    ensures
        2 as real * n.at(x.gelu(), index) == n.at(x, index) * (1 as real + (n.erf)(
            n.at(x, index) * (n.literal)(FRAC_1_SQRT_2),
        )),
        707106 as real <= 1000000 as real * (n.literal)(FRAC_1_SQRT_2) <= 707107 as real,
{
    broadcast use {group_extents, group_operands, group_numbers};

    let a = n.at(x, index);
    let half = x.mul_scalar(Scalar::Bits(F32_HALF));
    let inner = x.mul_scalar(Scalar::Bits(FRAC_1_SQRT_2));
    let weight = inner.erf().add_scalar(Scalar::Bits(F32_ONE));
    assert(x.gelu() == half.mul(weight));
    assert(n.at(weight, index) == 1 as real + (n.erf)(a * (n.literal)(FRAC_1_SQRT_2)));
    lemma_half_times(a, (n.literal)(F32_HALF), n.at(weight, index));
    lemma_powers();
    assert(encoded(FRAC_1_SQRT_2, (n.literal)(FRAC_1_SQRT_2)));
}

proof fn lemma_half_times(a: real, h: real, w: real)
    by (nonlinear_arith)
    requires
        2 as real * h == 1 as real,
    ensures
        2 as real * ((a * h) * w) == a * w,
{
}

/// The approximate Gaussian error linear unit weighs a number by the hyperbolic
/// tangent of a cubic in it.
#[verifier::rlimit(40)]
pub proof fn approximate_gaussian_units_weigh_their_input(n: Numbers, x: Expr, index: Seq<int>)
    requires
        n.lawful(),
        x.gelu_tanh() is Is,
        x->Is_0.dims.len() <= usize::MAX,
        within(x->Is_0.dims, index),
    ensures
        ({
            let a = n.at(x, index);
            2 as real * n.at(x.gelu_tanh(), index) == a * (1 as real + n.tanh(
                (a + (a * a * a) * (n.literal)(GELU_CUBIC)) * (n.literal)(SQRT_2_OVER_PI),
            ))
        }),
        44714 as real <= 1000000 as real * (n.literal)(GELU_CUBIC) <= 44716 as real,
        797884 as real <= 1000000 as real * (n.literal)(SQRT_2_OVER_PI) <= 797885 as real,
{
    broadcast use {group_extents, group_operands, group_numbers};

    let a = n.at(x, index);
    let squared = x.mul(x);
    let cubed = squared.mul(x);
    let cubic = cubed.mul_scalar(Scalar::Bits(GELU_CUBIC));
    let inner = x.add(cubic).mul_scalar(Scalar::Bits(SQRT_2_OVER_PI));
    let gate = inner.tanh().add_scalar(Scalar::Bits(F32_ONE));
    let half = x.mul_scalar(Scalar::Bits(F32_HALF));
    assert(x.gelu_tanh() == half.mul(gate));
    assert(n.at(squared, index) == a * a);
    assert(n.at(cubed, index) == a * a * a);
    assert(n.at(x.add(cubic), index) == a + (a * a * a) * (n.literal)(GELU_CUBIC));
    lemma_half_times(a, (n.literal)(F32_HALF), n.at(gate, index));
    lemma_powers();
    assert(encoded(GELU_CUBIC, (n.literal)(GELU_CUBIC)));
    assert(encoded(SQRT_2_OVER_PI, (n.literal)(SQRT_2_OVER_PI)));
}

} // verus!
