//! What normalizations and moments are, as numbers.
use crate::adjoints::{lemma_collapsed_position, lemma_position_index, zeroed};
use crate::assignments::{count, kept_index, replaced};
use crate::batch_norm_state::blended;
use crate::elements::{
    lemma_ravel_split, lemma_unravel, narrowed_index, origin, ravel, reshape_keeps_the_order,
    unravel, within,
};
use crate::facts::group_extents;
use crate::graph::{applied, Expr, Value};
use crate::nn::{ends_with, grouped, other_axes};
use crate::numbers::{group_numbers, group_operands, spread_number, total, Numbers};
use crate::op::f32_order;
use crate::op::{Reduction, Scalar, F32_ONE};
use crate::products::pulled;
use crate::reductions::{
    lemma_line, lemma_pulled_back, lemma_row_count, lemma_row_index,
    means_times_their_count_are_sums, reductions_combine_their_rows, row_index,
};
use crate::shape::{chosen, collapsed, gathered, kept, span, volume};
use vstd::prelude::*;

verus! {

/// The squared deviations of numbers from another.
pub open spec fn squared_deviations(row: Seq<real>, center: real) -> Seq<real> {
    Seq::new(row.len(), |k: int| (row[k] - center) * (row[k] - center))
}

/// The mean of a row of a number of elements.
pub open spec fn mean_of(row: Seq<real>, number: real) -> real {
    total(row) / number
}

/// The population variance of a row of a number of elements.
pub open spec fn variance_of(row: Seq<real>, number: real) -> real {
    total(squared_deviations(row, mean_of(row, number))) / number
}

pub(crate) proof fn lemma_quotient(a: real, b: real, c: real)
    by (nonlinear_arith)
    requires
        c > 0 as real,
        a * c == b,
    ensures
        a == b / c,
{
}

proof fn lemma_square(a: real)
    by (nonlinear_arith)
    ensures
        a * a >= 0 as real,
{
}

proof fn lemma_nonnegative_quotient(a: real, b: real)
    by (nonlinear_arith)
    requires
        a >= 0 as real,
        b > 0 as real,
    ensures
        a / b >= 0 as real,
{
}

/// A sum of squares is not negative.
proof fn lemma_squares(items: Seq<real>)
    requires
        forall|k: int| 0 <= k < items.len() ==> #[trigger] items[k] >= 0 as real,
    ensures
        total(items) >= 0 as real,
    decreases items.len(),
{
    if items.len() > 0 {
        let front = items.drop_last();
        assert forall|k: int| 0 <= k < front.len() implies #[trigger] front[k] >= 0 as real by {
            assert(items[k] >= 0 as real);
        }
        lemma_squares(front);
        assert(items[items.len() - 1] >= 0 as real);
    }
}

/// The variance of a row is not negative.
pub(crate) proof fn lemma_variance(row: Seq<real>, number: real)
    requires
        number > 0 as real,
    ensures
        variance_of(row, number) >= 0 as real,
{
    let items = squared_deviations(row, mean_of(row, number));
    assert forall|k: int| 0 <= k < items.len() implies #[trigger] items[k] >= 0 as real by {
        lemma_square(row[k] - mean_of(row, number));
    }
    lemma_squares(items);
    lemma_nonnegative_quotient(total(items), number);
}

/// The root of a positive number is positive.
pub(crate) proof fn lemma_root(n: Numbers, a: real)
    requires
        n.rooted(),
        a > 0 as real,
    ensures
        (n.sqrt)(a) > 0 as real,
        (n.sqrt)(a) * (n.sqrt)(a) == a,
{
    let s = (n.sqrt)(a);
    assert(s >= 0 as real && s * s == a);
    assert(s > 0 as real) by (nonlinear_arith)
        requires
            s >= 0 as real,
            s * s == a,
            a > 0 as real,
    ;
}

/// Deviations from the mean over axes, and their squares.
#[verifier::rlimit(40)]
proof fn lemma_deviations(n: Numbers, x: Expr, axes: Seq<usize>, index: Seq<int>)
    requires
        n.lawful(),
        axes.len() > 0,
        x->Is_0.dims.len() <= usize::MAX,
        within(x->Is_0.dims, index),
        x.mean(axes, true) is Is,
        x.sub(x.mean(axes, true).broadcast_to(x->Is_0.dims)) is Is,
    ensures
        ({
            let dims = x->Is_0.dims;
            let centered = x.sub(x.mean(axes, true).broadcast_to(dims));
            let number = volume(gathered(dims, axes))->Some_0 as real;
            let row = n.row(x, chosen(dims.len(), axes), index);
            &&& number > 0 as real
            &&& centered.square() is Is ==> centered.square()->Is_0.dims == dims
            &&& n.at(centered, index) == n.at(x, index) - mean_of(row, number)
            &&& centered.square() is Is ==> n.row(
                centered.square(),
                chosen(dims.len(), axes),
                index,
            ) == squared_deviations(row, mean_of(row, number))
        }),
{
    broadcast use {group_extents, group_operands, group_numbers};

    let dims = x->Is_0.dims;
    let listed = chosen(dims.len(), axes);
    let mean = x.mean(axes, true);
    let broad = mean.broadcast_to(dims);
    let centered = x.sub(broad);
    let number = volume(gathered(dims, axes))->Some_0 as real;
    let row = n.row(x, listed, index);
    let center = mean_of(row, number);
    means_times_their_count_are_sums(n, x, axes, index);
    lemma_quotient(n.at(mean, zeroed(index, axes)), total(row), number);
    lemma_pulled_back(dims, axes, index);
    spread_number(n, mean, dims, index);
    if centered.square() is Is {
        let squares = n.row(centered.square(), listed, index);
        let wanted = squared_deviations(row, center);
        lemma_row_count(dims, axes, index);
        assert forall|d: int| 0 <= d < squares.len() implies #[trigger] squares[d] == wanted[d] by {
            let at = row_index(dims, listed, index, d);
            lemma_row_index(dims, axes, index, d);
            lemma_pulled_back(dims, axes, at);
            spread_number(n, mean, dims, at);
            assert(n.at(centered, at) == n.at(x, at) - center);
            assert(n.at(centered.mul(centered), at) == n.at(centered, at) * n.at(centered, at));
        }
        assert(squares =~= wanted);
    }
}

/// A number standardized: less the mean, over the root of the variance and a
/// constant.
pub open spec fn standard(n: Numbers, row: Seq<real>, number: real, epsilon: real, a: real, z: real)
    -> bool {
    z * (n.sqrt)(variance_of(row, number) + epsilon) == a - mean_of(row, number)
}

proof fn lemma_over_root(d: real, s: real)
    by (nonlinear_arith)
    requires
        s > 0 as real,
    ensures
        (d * (1 as real / s)) * s == d,
{
}

/// Deviations over their root mean square.
#[verifier::rlimit(40)]
proof fn lemma_normalized(
    n: Numbers,
    x: Expr,
    axes: Seq<usize>,
    epsilon: u32,
    index: Seq<int>,
)
    requires
        n.lawful(),
        axes.len() > 0,
        x is Is,
        x->Is_0.dims.len() <= usize::MAX,
        within(x->Is_0.dims, index),
        x.normalized(axes, epsilon) is Is,
        (n.literal)(epsilon) > 0 as real,
    ensures
        x.normalized(axes, epsilon)->Is_0.dims == x->Is_0.dims,
        x.normalized(axes, epsilon)->Is_0.dtype == x->Is_0.dtype,
        volume(gathered(x->Is_0.dims, axes)) is Some,
        volume(gathered(x->Is_0.dims, axes))->Some_0 > 0,
        standard(
            n,
            n.row(x, chosen(x->Is_0.dims.len(), axes), index),
            volume(gathered(x->Is_0.dims, axes))->Some_0 as real,
            (n.literal)(epsilon),
            n.at(x, index),
            n.at(x.normalized(axes, epsilon), index),
        ),
{
    broadcast use {group_extents, group_operands, group_numbers};

    reveal(Expr::normalized);
    let dims = x->Is_0.dims;
    let listed = chosen(dims.len(), axes);
    let mean = x.mean(axes, true);
    let centered = x.sub(mean.broadcast_to(dims));
    let squares = centered.square();
    let spread = squares.mean(axes, true);
    let shifted = spread.add_scalar(Scalar::Bits(epsilon));
    let inverse = shifted.rsqrt();
    assert(x.normalized(axes, epsilon) == centered.mul(inverse.broadcast_to(dims)));
    assert(centered is Is && squares is Is && inverse is Is);
    let number = volume(gathered(dims, axes))->Some_0 as real;
    let row = n.row(x, listed, index);
    let there = zeroed(index, axes);
    means_times_their_count_are_sums(n, x, axes, index);
    lemma_deviations(n, x, axes, index);
    means_times_their_count_are_sums(n, squares, axes, index);
    let variance = variance_of(row, number);
    lemma_quotient(
        n.at(spread, there),
        total(squared_deviations(row, mean_of(row, number))),
        number,
    );
    lemma_variance(row, number);
    lemma_pulled_back(dims, axes, index);
    let e = (n.literal)(epsilon);
    lemma_root(n, variance + e);
    assert(n.at(shifted, there) == variance + e);
    assert(n.at(inverse, there) == 1 as real / (n.sqrt)(variance + e));
    spread_number(n, inverse, dims, index);
    lemma_over_root(n.at(centered, index), (n.sqrt)(variance + e));
}

/// The trailing coordinates of an index.
pub(crate) proof fn lemma_trailing(dims: Seq<i64>, suffix: Seq<i64>, index: Seq<int>)
    requires
        within(dims, index),
        ends_with(dims, suffix),
    ensures
        pulled(suffix, index) == index.skip(dims.len() - suffix.len()),
        gathered(dims, span((dims.len() - suffix.len()) as nat, dims.len())) == suffix || dims.len()
            > usize::MAX,
{
    let low = dims.len() - suffix.len();
    assert forall|i: int| 0 <= i < suffix.len() implies #[trigger] pulled(suffix, index)[i]
        == index.skip(low)[i] by {
        assert(dims.skip(low)[i] == dims[i + low]);
        assert(0 <= index[i + low] < dims[i + low]);
    }
    assert(pulled(suffix, index) =~= index.skip(low));
    if dims.len() <= usize::MAX {
        let axes = span(low as nat, dims.len());
        assert forall|i: int| 0 <= i < suffix.len() implies #[trigger] gathered(dims, axes)[i]
            == suffix[i] by {
            assert(dims.skip(low)[i] == dims[i + low]);
        }
        assert(gathered(dims, axes) =~= suffix);
    }
}

/// The number that an optional factor or summand has at an index.
pub open spec fn affine_at(n: Numbers, tensor: Option<Value>, index: Seq<int>, missing: real) -> real {
    match tensor {
        None => missing,
        Some(v) => n.of(v, index),
    }
}

/// Layer normalization standardizes each number among those of the normalized
/// trailing axes that share its leading coordinates, and then applies the weight
/// and the bias at its trailing coordinates.
#[verifier::rlimit(40)]
pub proof fn layer_normalization_standardizes_trailing_axes(
    n: Numbers,
    x: Expr,
    shape: Seq<i64>,
    weight: Option<Value>,
    bias: Option<Value>,
    epsilon: u32,
    index: Seq<int>,
)
    requires
        n.lawful(),
        x.layer_norm(shape, weight, bias, epsilon) is Is,
        x->Is_0.dims.len() <= usize::MAX,
        within(x->Is_0.dims, index),
        (n.literal)(epsilon) > 0 as real,
    ensures
        ({
            let dims = x->Is_0.dims;
            let low = dims.len() - shape.len();
            let row = n.row(x, chosen(dims.len(), span(low as nat, dims.len())), index);
            let at = index.skip(low);
            exists|z: real| #[trigger]
                standard(
                    n,
                    row,
                    volume(shape)->Some_0 as real,
                    (n.literal)(epsilon),
                    n.at(x, index),
                    z,
                ) && n.at(x.layer_norm(shape, weight, bias, epsilon), index) == z * affine_at(
                    n,
                    weight,
                    at,
                    1 as real,
                ) + affine_at(n, bias, at, 0 as real)
        }),
{
    broadcast use {group_extents, group_operands, group_numbers};

    let dims = x->Is_0.dims;
    let low = dims.len() - shape.len();
    let axes = span(low as nat, dims.len());
    let core = x.normalized(axes, epsilon);
    let scaled = core.scaled_by(weight, dims);
    let shifted = scaled.shifted_by(bias, dims);
    assert(x.layer_norm(shape, weight, bias, epsilon) == shifted);
    assert(scaled is Is && core is Is);
    lemma_normalized(n, x, axes, epsilon, index);
    lemma_trailing(dims, shape, index);
    assert(x->Is_0.dtype == crate::dtype::DType::F32) by {
        reveal(Expr::normalized);
    }
    let z = n.at(core, index);
    let row = n.row(x, chosen(dims.len(), axes), index);
    assert(standard(
        n,
        row,
        volume(shape)->Some_0 as real,
        (n.literal)(epsilon),
        n.at(x, index),
        z,
    ));
    if let Some(w) = weight {
        spread_number(n, Expr::Is(w), dims, index);
    }
    if let Some(b) = bias {
        spread_number(n, Expr::Is(b), dims, index);
    }
    assert(z * 1 as real == z);
}

/// A list of channels placed along one axis.
pub(crate) proof fn lemma_placed(n: Numbers, y: Expr, dims: Seq<i64>, axis: usize, index: Seq<int>)
    requires
        y.broadcast_in_dim(dims, seq![axis]) is Is,
        within(dims, index),
        axis < dims.len(),
        y->Is_0.dims == seq![dims[axis as int]],
    ensures
        n.at(y.broadcast_in_dim(dims, seq![axis]), index) == n.at(y, seq![index[axis as int]]),
{
    reveal(applied);
    reveal(origin);
    let axes = seq![axis];
    let from = y->Is_0.dims;
    assert(0 <= index[axis as int] < dims[axis as int]);
    assert(narrowed_index(from, axes, index) =~= seq![index[axis as int]]);
    if dims == from && axes == span(0, dims.len()) {
        assert(axis == 0);
        assert(index =~= seq![index[axis as int]]);
    }
}

/// Affine group normalization is group normalization without affine tensors,
/// each number times the weight of its channel plus the bias of its channel.
#[verifier::rlimit(40)]
pub proof fn group_normalization_scales_and_shifts_channels(
    n: Numbers,
    x: Expr,
    groups: i64,
    weight: Option<Value>,
    bias: Option<Value>,
    epsilon: u32,
    index: Seq<int>,
)
    requires
        n.lawful(),
        x.group_norm(groups, weight, bias, epsilon) is Is,
        x->Is_0.dims.len() <= usize::MAX,
        within(x->Is_0.dims, index),
    ensures
        x.group_norm(groups, None, None, epsilon) is Is,
        n.at(x.group_norm(groups, weight, bias, epsilon), index) == n.at(
            x.group_norm(groups, None, None, epsilon),
            index,
        ) * affine_at(n, weight, seq![index[1]], 1 as real) + affine_at(
            n,
            bias,
            seq![index[1]],
            0 as real,
        ),
{
    broadcast use {group_extents, group_operands, group_numbers};

    let dims = x->Is_0.dims;
    let core = x.group_norm(groups, None, None, epsilon);
    let scaled = core.channels_scaled_by(weight, dims);
    let shifted = scaled.channels_shifted_by(bias, dims);
    assert(x.group_norm(groups, weight, bias, epsilon) == shifted);
    assert(scaled is Is && core is Is);
    assert(core->Is_0.dims == dims);
    assert(core->Is_0.dtype == crate::dtype::DType::F32) by {
        reveal(Expr::normalized);
    }
    if let Some(w) = weight {
        lemma_placed(n, Expr::Is(w), dims, 1, index);
    }
    if let Some(b) = bias {
        lemma_placed(n, Expr::Is(b), dims, 1, index);
    }
    assert(n.at(core, index) * 1 as real == n.at(core, index));
}

/// The variance over axes, times the number of elements less the correction, is
/// the sum of the squared deviations from the mean.
#[verifier::rlimit(40)]
pub proof fn variances_average_squared_deviations(
    n: Numbers,
    x: Expr,
    axes: Seq<usize>,
    correction: usize,
    index: Seq<int>,
)
    requires
        n.lawful(),
        axes.len() > 0,
        x->Is_0.dims.len() <= usize::MAX,
        within(x->Is_0.dims, index),
    ensures
        ({
            let dims = x->Is_0.dims;
            let number = volume(gathered(dims, axes))->Some_0;
            let row = n.row(x, chosen(dims.len(), axes), index);
            let spread = total(squared_deviations(row, mean_of(row, number as real)));
            let degrees = (number - correction) as real;
            &&& x.variance(axes, true, correction) is Is ==> degrees > 0 as real && n.at(
                x.variance(axes, true, correction),
                zeroed(index, axes),
            ) * degrees == spread
            &&& x.variance(axes, false, correction) is Is ==> degrees > 0 as real && n.at(
                x.variance(axes, false, correction),
                kept_index(index, axes),
            ) * degrees == spread
        }),
{
    broadcast use {group_extents, group_operands, group_numbers};

    let dims = x->Is_0.dims;
    let listed = chosen(dims.len(), axes);
    let mean = x.mean(axes, true);
    let centered = x.sub(mean.broadcast_to(dims));
    let squares = centered.square();
    if x.variance(axes, true, correction) is Is || x.variance(axes, false, correction) is Is {
        assert(mean is Is && centered is Is && squares is Is);
        let number = volume(gathered(dims, axes))->Some_0;
        lemma_deviations(n, x, axes, index);
        reductions_combine_their_rows(n, squares, Reduction::Sum, axes, index);
        lemma_pulled_back(dims, axes, index);
        lemma_collapsed_position(dims, axes, index);
        let value = Scalar::Reciprocal { count: (number - correction) as u64 };
        let degrees = (number - correction) as real;
        assert(number <= usize::MAX);
        assert(((number - correction) as u64) as real == degrees);
        if x.variance(axes, true, correction) is Is {
            let sums = squares.sum(axes, true);
            assert(x.variance(axes, true, correction) == sums.mul_scalar(value));
            assert(n.at(sums.mul_scalar(value), zeroed(index, axes)) == n.at(
                sums,
                zeroed(index, axes),
            ) * n.constant(value));
            lemma_over_root(n.at(sums, zeroed(index, axes)), degrees);
        }
        if x.variance(axes, false, correction) is Is {
            let sums = squares.sum(axes, false);
            assert(x.variance(axes, false, correction) == sums.mul_scalar(value));
            lemma_kept_length(dims, axes);
            assert(sums->Is_0.dims == kept(dims, axes) && sums->Is_0.dtype == x->Is_0.dtype) by {
                reveal(applied);
            }
            assert(n.at(sums.mul_scalar(value), kept_index(index, axes)) == n.at(
                sums,
                kept_index(index, axes),
            ) * n.constant(value));
            lemma_over_root(n.at(sums, kept_index(index, axes)), degrees);
        }
    }
}

/// The mean that goes with a variance is the mean over the same axes.
#[verifier::rlimit(40)]
pub proof fn means_of_moments_are_means(
    n: Numbers,
    x: Expr,
    axes: Seq<usize>,
    correction: usize,
    index: Seq<int>,
)
    requires
        n.lawful(),
        axes.len() > 0,
        x->Is_0.dims.len() <= usize::MAX,
        within(x->Is_0.dims, index),
    ensures
        ({
            let dims = x->Is_0.dims;
            let number = volume(gathered(dims, axes))->Some_0 as real;
            let row = n.row(x, chosen(dims.len(), axes), index);
            &&& x.moments_mean(axes, true, correction) is Is ==> n.at(
                x.moments_mean(axes, true, correction),
                zeroed(index, axes),
            ) == mean_of(row, number)
            &&& x.moments_mean(axes, false, correction) is Is ==> n.at(
                x.moments_mean(axes, false, correction),
                kept_index(index, axes),
            ) == mean_of(row, number)
        }),
{
    broadcast use {group_extents, group_operands, group_numbers};

    let dims = x->Is_0.dims;
    let mean = x.mean(axes, true);
    let row = n.row(x, chosen(dims.len(), axes), index);
    let number = volume(gathered(dims, axes))->Some_0 as real;
    if x.moments_mean(axes, true, correction) is Is || x.moments_mean(axes, false, correction)
        is Is {
        assert(mean is Is);
        means_times_their_count_are_sums(n, x, axes, index);
        lemma_quotient(n.at(mean, zeroed(index, axes)), total(row), number);
        if x.moments_mean(axes, false, correction) is Is {
            let flat = kept(dims, axes);
            let there = kept_index(index, axes);
            assert(x.moments_mean(axes, false, correction) == mean.reshape(flat));
            reshape_keeps_the_order(mean, flat, there);
            lemma_collapsed_position(dims, axes, index);
            lemma_pulled_back(dims, axes, index);
            lemma_unravel(collapsed(dims, axes), zeroed(index, axes));
        }
    }
}

/// Removing axes lengthens no shape.
proof fn lemma_kept_length(dims: Seq<i64>, axes: Seq<usize>)
    ensures
        kept(dims, axes).len() <= dims.len(),
    decreases dims.len(),
{
    if dims.len() > 0 {
        lemma_kept_length(dims.drop_last(), axes);
    }
}

proof fn lemma_scaled_root(d: real, s: real, w: real)
    by (nonlinear_arith)
    requires
        s > 0 as real,
    ensures
        (d * ((1 as real / s) * w)) * s == d * w,
        ((d * (1 as real / s)) * w) * s == d * w,
{
    assert((1 as real / s) * s == 1 as real);
    assert((d * ((1 as real / s) * w)) * s == d * w * ((1 as real / s) * s));
    assert(((d * (1 as real / s)) * w) * s == d * w * ((1 as real / s) * s));
}

/// Batch normalization with supplied statistics takes the deviation from the
/// mean of the channel, over the root of the variance of the channel and the
/// constant, times the weight of the channel, plus its bias.
#[verifier::rlimit(40)]
pub proof fn batch_normalization_standardizes_channels(
    n: Numbers,
    x: Expr,
    axis: usize,
    statistics: (Value, Value),
    affine: (Value, Value),
    epsilon: u32,
    index: Seq<int>,
)
    requires
        n.lawful(),
        x.batch_norm_inference(axis, statistics.0, statistics.1, affine.0, affine.1, epsilon) is Is,
        x->Is_0.dims.len() <= usize::MAX,
        within(x->Is_0.dims, index),
        n.of(statistics.1, seq![index[axis as int]]) + (n.literal)(epsilon) > 0 as real,
    ensures
        ({
            let c = seq![index[axis as int]];
            let z = n.at(
                x.batch_norm_inference(
                    axis,
                    statistics.0,
                    statistics.1,
                    affine.0,
                    affine.1,
                    epsilon,
                ),
                index,
            );
            (z - n.of(affine.1, c)) * (n.sqrt)(n.of(statistics.1, c) + (n.literal)(epsilon)) == (
            n.at(x, index) - n.of(statistics.0, c)) * n.of(affine.0, c)
        }),
{
    broadcast use {group_extents, group_operands, group_numbers};

    reveal(Expr::standardized);
    let dims = x->Is_0.dims;
    let (mean, variance) = (Expr::Is(statistics.0), Expr::Is(statistics.1));
    let (weight, bias) = (Expr::Is(affine.0), Expr::Is(affine.1));
    let axes = seq![axis];
    let c = seq![index[axis as int]];
    let shifted = variance.add_scalar(Scalar::Bits(epsilon));
    let inverse = shifted.rsqrt();
    let scale = inverse.mul(weight);
    let center = mean.broadcast_in_dim(dims, axes);
    let difference = x.sub(center);
    let factor = scale.broadcast_in_dim(dims, axes);
    let product = difference.mul(factor);
    let summand = bias.broadcast_in_dim(dims, axes);
    let y = x.batch_norm_inference(
        axis,
        statistics.0,
        statistics.1,
        affine.0,
        affine.1,
        epsilon,
    );
    assert(y == product.add(summand));
    assert(product is Is && summand is Is && difference is Is && factor is Is && scale is Is);
    assert(0 <= index[axis as int] < dims[axis as int]);
    lemma_placed(n, mean, dims, axis, index);
    lemma_placed(n, scale, dims, axis, index);
    lemma_placed(n, bias, dims, axis, index);
    let v = n.of(statistics.1, c) + (n.literal)(epsilon);
    lemma_root(n, v);
    assert(within(seq![dims[axis as int]], c));
    assert(n.at(shifted, c) == v);
    assert(n.at(inverse, c) == 1 as real / (n.sqrt)(v));
    assert(n.at(scale, c) == (1 as real / (n.sqrt)(v)) * n.of(affine.0, c));
    let d = n.at(x, index) - n.of(statistics.0, c);
    assert(n.at(difference, index) == d);
    assert(n.at(product, index) == d * n.at(scale, c));
    lemma_scaled_root(d, (n.sqrt)(v), n.of(affine.0, c));
}

/// Root-mean-square normalization takes each number over the root of the mean of
/// the squares along the last axis and the constant, times the weight at its
/// last coordinate.
#[verifier::rlimit(40)]
pub proof fn root_mean_square_normalization_divides_by_the_root(
    n: Numbers,
    x: Expr,
    weight: Expr,
    epsilon: u32,
    index: Seq<int>,
)
    requires
        n.lawful(),
        x.rms_norm(weight, epsilon) is Is,
        x->Is_0.dims.len() <= usize::MAX,
        within(x->Is_0.dims, index),
        (n.literal)(epsilon) > 0 as real,
    ensures
        ({
            let axis = (x->Is_0.dims.len() - 1) as usize;
            let line = n.line(x, axis, index);
            let power = total(Seq::new(line.len(), |k: int| line[k] * line[k])) / (
            x->Is_0.dims.last() as real);
            n.at(x.rms_norm(weight, epsilon), index) * (n.sqrt)(power + (n.literal)(epsilon))
                == n.at(x, index) * n.at(weight, seq![index.last()])
        }),
{
    broadcast use {group_extents, group_operands, group_numbers};

    let dims = x->Is_0.dims;
    let axis = (dims.len() - 1) as usize;
    let axes = seq![axis];
    let a = axis as int;
    assert(axes[0] == axis);
    let squares = x.square();
    let mean = squares.mean(axes, true);
    let shifted = mean.add_scalar(Scalar::Bits(epsilon));
    let inverse = shifted.rsqrt();
    let scale = inverse.broadcast_to(dims);
    let product = x.mul(scale);
    let factor = weight.broadcast_to(dims);
    assert(x.rms_norm(weight, epsilon) == product.mul(factor));
    assert(product is Is && factor is Is && scale is Is && mean is Is && squares is Is);
    assert(0 <= index[a] < dims[a]);
    means_times_their_count_are_sums(n, squares, axes, index);
    lemma_line(n, squares, axis, index);
    lemma_pulled_back(dims, axes, index);
    let inner = gathered(dims, axes);
    assert(inner =~= seq![dims[a]]);
    assert(inner.drop_last() =~= Seq::<i64>::empty());
    reveal_with_fuel(volume, 2);
    assert(inner.last() == dims[a]);
    assert(1 * inner.last() == inner.last()) by (nonlinear_arith);
    assert(volume(inner)->Some_0 == dims[a]);
    let line = n.line(x, axis, index);
    let wanted = Seq::new(line.len(), |k: int| line[k] * line[k]);
    let found = n.line(squares, axis, index);
    assert forall|k: int| 0 <= k < found.len() implies #[trigger] found[k] == wanted[k] by {
        let at = index.update(a, k);
        assert(within(dims, at)) by {
            assert forall|i: int| 0 <= i < dims.len() implies 0 <= #[trigger] at[i] < dims[i] by {
                assert(0 <= index[i] < dims[i]);
            }
        }
        assert(n.at(x.mul(x), at) == n.at(x, at) * n.at(x, at));
    }
    assert(found =~= wanted);
    let there = zeroed(index, axes);
    let number = dims.last() as real;
    let power = total(wanted) / number;
    lemma_quotient(n.at(mean, there), total(wanted), number);
    assert forall|k: int| 0 <= k < wanted.len() implies #[trigger] wanted[k] >= 0 as real by {
        lemma_square(line[k]);
    }
    lemma_squares(wanted);
    lemma_nonnegative_quotient(total(wanted), number);
    let e = (n.literal)(epsilon);
    lemma_root(n, power + e);
    assert(n.at(inverse, there) == 1 as real / (n.sqrt)(power + e));
    spread_number(n, inverse, dims, index);
    spread_number(n, weight, dims, index);
    assert(pulled(weight->Is_0.dims, index) =~= seq![index.last()]);
    lemma_scaled_root(n.at(x, index), (n.sqrt)(power + e), n.at(weight, seq![index.last()]));
}

/// The consecutive numbers, of a given count, among which an element stands when
/// all are divided into as many.
pub open spec fn block(n: Numbers, x: Expr, size: int, index: Seq<int>) -> Seq<real> {
    let dims = x->Is_0.dims;
    let start = ravel(dims, index) / size * size;
    Seq::new(size as nat, |d: int| n.at(x, unravel(dims, start + d)))
}

proof fn lemma_chosen_span(low: nat, high: nat, rank: nat)
    requires
        low <= rank <= high <= usize::MAX,
    ensures
        chosen(rank, span(low, high)) == span(low, rank),
    decreases rank,
{
    let axes = span(low, high);
    if rank > low {
        lemma_chosen_span(low, high, (rank - 1) as nat);
        let last = (rank - 1) as usize;
        assert(axes[rank - 1 - low] == last);
        assert(axes.contains(last));
        assert(span(low, (rank - 1) as nat).push(last) =~= span(low, rank));
    } else {
        lemma_chosen_below(low, high, rank);
        assert(span(low, rank) =~= Seq::<usize>::empty());
    }
}

proof fn lemma_chosen_below(low: nat, high: nat, rank: nat)
    requires
        rank <= low <= high <= usize::MAX,
    ensures
        chosen(rank, span(low, high)) == Seq::<usize>::empty(),
    decreases rank,
{
    if rank > 0 {
        lemma_chosen_below(low, high, (rank - 1) as nat);
        let axes = span(low, high);
        assert forall|i: int| 0 <= i < axes.len() implies axes[i] != (rank - 1) as usize by {
            assert(axes[i] == (low + i) as usize);
        }
    }
}

proof fn lemma_count_front(size: i64, rest: Seq<i64>)
    ensures
        count(seq![size] + rest) == size * count(rest),
    decreases rest.len(),
{
    let all = seq![size] + rest;
    if rest.len() == 0 {
        assert(all =~= seq![size]);
        assert(seq![size].drop_last() =~= Seq::<i64>::empty());
        reveal_with_fuel(count, 2);
        assert(1 * size == size && size * 1 == size) by (nonlinear_arith);
    } else {
        lemma_count_front(size, rest.drop_last());
        assert(all.drop_last() =~= seq![size] + rest.drop_last());
        let (a, b, c) = (size as int, count(rest.drop_last()), rest.last() as int);
        assert((a * b) * c == a * (b * c)) by (nonlinear_arith);
    }
}

/// The position of an index of joined extents.
proof fn lemma_joined(a: Seq<i64>, i: Seq<int>, b: Seq<i64>, j: Seq<int>)
    requires
        i.len() == a.len(),
        j.len() == b.len(),
    ensures
        ravel(a + b, i + j) == ravel(a, i) * count(b) + ravel(b, j),
    decreases b.len(),
{
    if b.len() == 0 {
        assert(a + b =~= a);
        assert(i + j =~= i);
        assert(ravel(a, i) * 1 == ravel(a, i)) by (nonlinear_arith);
    } else {
        lemma_joined(a, i, b.drop_last(), j.drop_last());
        assert((a + b).drop_last() =~= a + b.drop_last());
        assert((i + j).drop_last() =~= i + j.drop_last());
        let (r, f, q, d) = (
            ravel(a, i),
            count(b.drop_last()),
            ravel(b.drop_last(), j.drop_last()),
            b.last() as int,
        );
        assert((r * f + q) * d == r * (f * d) + q * d) by (nonlinear_arith);
    }
}

proof fn lemma_below_count(dims: Seq<i64>, index: Seq<int>)
    requires
        within(dims, index),
    ensures
        0 <= ravel(dims, index) < count(dims),
    decreases dims.len(),
{
    if dims.len() > 0 {
        let front = dims.drop_last();
        let before = index.drop_last();
        assert forall|i: int| 0 <= i < front.len() implies 0 <= #[trigger] before[i] < front[i] by {
            assert(0 <= index[i] < dims[i]);
        }
        lemma_below_count(front, before);
        assert(0 <= index[dims.len() - 1] < dims[dims.len() - 1]);
        let (at, number, size, rest) = (
            ravel(front, before),
            count(front),
            dims.last() as int,
            index.last(),
        );
        assert(0 <= at * size + rest < number * size) by (nonlinear_arith)
            requires
                0 <= at <= number - 1,
                0 <= rest < size,
        ;
    }
}

proof fn lemma_same_size(size: int, groups: int, inner: int, channels: int, rest: int)
    by (nonlinear_arith)
    requires
        groups > 0,
        channels == groups * inner,
        size * groups == channels * rest,
    ensures
        size == inner * rest,
{
}

proof fn lemma_block_start(base: int, size: int, r: int)
    by (nonlinear_arith)
    requires
        0 <= r < size,
    ensures
        (base * size + r) / size == base,
{
}

/// Group normalization standardizes each number among those of its group: the
/// examples hold as many groups as asked for, one after the other, of equal size.
#[verifier::rlimit(60)]
pub proof fn group_normalization_standardizes_groups(
    n: Numbers,
    x: Expr,
    groups: i64,
    epsilon: u32,
    size: int,
    index: Seq<int>,
)
    requires
        n.lawful(),
        x.group_norm(groups, None, None, epsilon) is Is,
        x->Is_0.dims.len() < usize::MAX,
        within(x->Is_0.dims, index),
        (n.literal)(epsilon) > 0 as real,
        size * groups == count(x->Is_0.dims.skip(1)),
    ensures
        standard(
            n,
            block(n, x, size, index),
            size as real,
            (n.literal)(epsilon),
            n.at(x, index),
            n.at(x.group_norm(groups, None, None, epsilon), index),
        ),
{
    broadcast use group_extents;

    let dims = x->Is_0.dims;
    let gd = grouped(dims, groups);
    let suffix = gd.skip(2);
    let xr = x.reshape(gd);
    let core = xr.layer_norm(suffix, None, None, epsilon);
    assert(x.group_norm(groups, None, None, epsilon) == core.reshape(dims));
    assert(core is Is && xr is Is);
    assert(0 <= index[0] < dims[0] && 0 <= index[1] < dims[1]);
    let (channels, k) = (dims[1] as int, dims[1] as int / groups as int);
    let rest = dims.skip(2);
    vstd::arithmetic::div_mod::lemma_fundamental_div_mod(channels, groups as int);
    assert(channels == groups * k);
    assert(k > 0) by (nonlinear_arith)
        requires
            channels == groups * k,
            channels > 0,
            groups > 0,
    ;
    assert(0 < k <= channels) by (nonlinear_arith)
        requires
            channels == groups * k,
            k > 0,
            groups >= 1,
    ;
    let inner = k as i64;
    assert(suffix =~= seq![inner] + rest);
    assert(dims.skip(1) =~= seq![dims[1]] + rest);
    lemma_count_front(inner, rest);
    lemma_count_front(dims[1], rest);
    lemma_same_size(size, groups as int, k, channels, count(rest));
    assert(count(suffix) == size);
    let c = index[1];
    let (p, q) = (c / k, c % k);
    vstd::arithmetic::div_mod::lemma_fundamental_div_mod(c, k);
    assert(c == p * inner + q) by (nonlinear_arith)
        requires
            c == k * p + q,
            inner == k,
    ;
    assert(0 <= p < groups) by (nonlinear_arith)
        requires
            c == k * p + q,
            0 <= q < k,
            0 <= c < groups * k,
    ;
    let idx = index.update(1, p).insert(2, q);
    assert(gd =~= dims.update(1, groups).insert(2, inner));
    lemma_ravel_split(dims, index, 1, groups, inner, p, q);
    assert(within(gd, idx)) by {
        assert forall|i: int| 0 <= i < gd.len() implies 0 <= #[trigger] idx[i] < gd[i] by {
            if i > 2 {
                assert(0 <= index[i - 1] < dims[i - 1]);
            }
        }
    }
    assert(ends_with(gd, suffix));
    assert(core == xr.normalized(span(2, gd.len()), epsilon));
    lemma_normalized(n, xr, span(2, gd.len()), epsilon, idx);
    reshape_keeps_the_order(x, gd, idx);
    lemma_unravel(dims, index);
    reshape_keeps_the_order(core, dims, index);
    lemma_unravel(gd, idx);
    let position = ravel(dims, index);
    let axes = span(2, gd.len());
    lemma_chosen_span(2, gd.len(), gd.len());
    lemma_trailing(gd, suffix, idx);
    assert(gathered(gd, axes) == suffix);
    let front = gd.take(2);
    let before = idx.take(2);
    assert(front + suffix =~= gd);
    let after = idx.skip(2);
    assert(before + after =~= idx);
    assert(within(suffix, after)) by {
        assert forall|i: int| 0 <= i < suffix.len() implies 0 <= #[trigger] after[i] < suffix[i] by {
            assert(0 <= idx[i + 2] < gd[i + 2]);
        }
    }
    lemma_joined(front, before, suffix, after);
    lemma_below_count(suffix, after);
    let base = ravel(front, before);
    lemma_block_start(base, size, ravel(suffix, after));
    assert(position / size * size == base * size);
    let row = n.row(xr, chosen(gd.len(), axes), idx);
    let wanted = block(n, x, size, index);
    assert(volume(suffix) is Some && volume(suffix)->Some_0 == size) by {
        crate::reductions::lemma_volume_count(suffix);
    }
    assert forall|d: int| 0 <= d < size implies #[trigger] row[d] == wanted[d] by {
        let u = unravel(suffix, d);
        assert(crate::words::inside(suffix, d));
        lemma_position_index(suffix, d);
        let there = replaced(idx, axes, u);
        assert(there =~= before + u) by {
            assert forall|i: int| 0 <= i < idx.len() implies #[trigger] there[i] == (before + u)[i] by {
                if i >= 2 {
                    assert(axes[i - 2] == i as usize);
                    assert(axes.contains(i as usize));
                    lemma_span_place(2, gd.len(), i);
                } else {
                    assert forall|j: int| 0 <= j < axes.len() implies axes[j] != i as usize by {
                        assert(axes[j] == (2 + j) as usize);
                    }
                }
            }
        }
        lemma_joined(front, before, suffix, u);
        assert(within(gd, there)) by {
            assert forall|i: int| 0 <= i < gd.len() implies 0 <= #[trigger] there[i] < gd[i] by {
                if i < 2 {
                    assert(0 <= idx[i] < gd[i]);
                } else {
                    assert(0 <= u[i - 2] < suffix[i - 2]);
                }
            }
        }
        reshape_keeps_the_order(x, gd, there);
    }
    assert(row =~= wanted);
}

/// Where an axis stands in a span.
proof fn lemma_span_place(low: nat, high: nat, axis: int)
    requires
        low <= axis < high <= usize::MAX,
    ensures
        span(low, high).index_of(axis as usize) == axis - low,
{
    let axes = span(low, high);
    assert(axes[axis - low] == axis as usize);
    assert forall|j: int| 0 <= j < axes.len() && axes[j] == axis as usize implies j == axis
        - low by {
        assert(axes[j] == (low + j) as usize);
    }
}

/// The coordinate that remains beside all other axes.
proof fn lemma_beside(dims: Seq<i64>, axis: usize, index: Seq<int>)
    requires
        axis < dims.len() <= usize::MAX,
        index.len() == dims.len(),
    ensures
        kept_index(index, other_axes(dims.len(), axis)) == seq![index[axis as int]],
        other_axes(dims.len(), axis).len() == dims.len() - 1,
{
    let axes = other_axes(dims.len(), axis);
    let low = span(0, axis as nat);
    let high = span((axis + 1) as nat, dims.len());
    assert forall|a: usize| a < dims.len() implies (#[trigger] axes.contains(a) == (a != axis)) by {
        if a < axis {
            assert(low[a as int] == a);
            assert(axes[a as int] == a);
        } else if a > axis {
            assert(high[a - axis - 1] == a);
            assert(axes[a - 1] == a);
        } else {
            assert forall|i: int| 0 <= i < axes.len() implies axes[i] != axis by {
                if i < low.len() {
                    assert(axes[i] == low[i] && low[i] == i as usize);
                } else {
                    assert(axes[i] == high[i - low.len()]);
                }
            }
        }
    }
    lemma_beside_upto(axes, axis, index);
}

proof fn lemma_beside_upto(axes: Seq<usize>, axis: usize, index: Seq<int>)
    requires
        index.len() <= usize::MAX,
        forall|a: usize| a < index.len() ==> (#[trigger] axes.contains(a) == (a != axis)),
    ensures
        kept_index(index, axes) == if axis < index.len() {
            seq![index[axis as int]]
        } else {
            Seq::empty()
        },
    decreases index.len(),
{
    if index.len() > 0 {
        lemma_beside_upto(axes, axis, index.drop_last());
        let last = index.len() - 1;
        assert(axes.contains(last as usize) == (last != axis));
        if last == axis {
            assert(Seq::<int>::empty().push(index.last()) =~= seq![index[axis as int]]);
        }
    }
}

/// Batch normalization in training standardizes each number among those of its
/// channel, and takes the weight and the bias of the channel.
#[verifier::rlimit(60)]
pub proof fn batch_normalization_standardizes_by_the_batch(
    n: Numbers,
    x: Expr,
    axis: usize,
    affine: (Value, Value),
    epsilon: u32,
    index: Seq<int>,
)
    requires
        n.lawful(),
        x.batch_norm_training(axis, affine.0, affine.1, epsilon) is Is,
        1 < x->Is_0.dims.len() <= usize::MAX,
        within(x->Is_0.dims, index),
        (n.literal)(epsilon) > 0 as real,
    ensures
        ({
            let dims = x->Is_0.dims;
            let axes = other_axes(dims.len(), axis);
            let row = n.row(x, chosen(dims.len(), axes), index);
            let number = volume(gathered(dims, axes))->Some_0 as real;
            let c = seq![index[axis as int]];
            let z = n.at(x.batch_norm_training(axis, affine.0, affine.1, epsilon), index);
            &&& number > 0 as real
            &&& n.at(x.batch_mean(axis), c) == mean_of(row, number)
            &&& n.at(x.batch_variance(axis), c) == variance_of(row, number)
            &&& (z - n.of(affine.1, c)) * (n.sqrt)(
                variance_of(row, number) + (n.literal)(epsilon),
            ) == (n.at(x, index) - mean_of(row, number)) * n.of(affine.0, c)
        }),
{
    let dims = x->Is_0.dims;
    let axes = other_axes(dims.len(), axis);
    let (mean, variance) = (x.batch_mean(axis), x.batch_variance(axis));
    assert(mean is Is && variance is Is && axis < dims.len());
    lemma_beside(dims, axis, index);
    let c = seq![index[axis as int]];
    let row = n.row(x, chosen(dims.len(), axes), index);
    let number = volume(gathered(dims, axes))->Some_0 as real;
    means_of_moments_are_means(n, x, axes, 0, index);
    variances_average_squared_deviations(n, x, axes, 0, index);
    let center = mean_of(row, number);
    let squares = squared_deviations(row, center);
    lemma_quotient(n.at(variance, c), total(squares), number);
    assert forall|k: int| 0 <= k < squares.len() implies #[trigger] squares[k] >= 0 as real by {
        lemma_square(row[k] - center);
    }
    lemma_squares(squares);
    lemma_nonnegative_quotient(total(squares), number);
    batch_normalization_standardizes_channels(
        n,
        x,
        axis,
        (mean->Is_0, variance->Is_0),
        affine,
        epsilon,
        index,
    );
}

/// A running statistic moves towards that of a batch by its rate.
#[verifier::rlimit(40)]
pub proof fn running_statistics_move_by_their_rate(
    n: Numbers,
    rate: u32,
    old_value: Value,
    new_value: Value,
    index: Seq<int>,
)
    requires
        n.lawful(),
        blended(rate, old_value, new_value) is Is,
        within(old_value.dims, index),
        old_value.dims == new_value.dims,
        old_value.dims.len() <= usize::MAX,
        f32_order(rate) == 0 ==> (n.literal)(rate) == 0 as real,
        f32_order(rate) == f32_order(F32_ONE) ==> (n.literal)(rate) == 1 as real,
    ensures
        n.at(blended(rate, old_value, new_value), index) - n.of(old_value, index) == (n.of(
            new_value,
            index,
        ) - n.of(old_value, index)) * (n.literal)(rate),
{
    broadcast use {group_extents, group_operands, group_numbers};

    reveal(blended);
    let (a, b, r) = (n.of(old_value, index), n.of(new_value, index), (n.literal)(rate));
    lemma_blend(a, b, r);
    if f32_order(rate) != 0 && f32_order(rate) != f32_order(F32_ONE) {
        let kept_part = Expr::Is(old_value).mul_scalar(Scalar::OneMinus(rate));
        let moved = Expr::Is(new_value).detach().mul_scalar(Scalar::Bits(rate));
        assert(kept_part is Is && moved is Is);
        assert(n.at(kept_part, index) == a * (1 as real - r));
        assert(n.at(moved, index) == b * r);
    }
}

proof fn lemma_blend(a: real, b: real, r: real)
    by (nonlinear_arith)
    ensures
        (a * (1 as real - r) + b * r) - a == (b - a) * r,
        r == 0 as real ==> (b - a) * r == 0 as real,
        r == 1 as real ==> (b - a) * r == b - a,
{
}

} // verus!
