//! Derivative rules: what every operation contributes to the gradients of its
//! operands.
use crate::dtype::{is_floating, DType};
use crate::error::{err, Error};
use crate::facts::group_extents;
use crate::graph::{applied, scalar, values_of, Expr, Graph, Tensor, Value};
use crate::op::{
    Binary, Conv2dOptions, ConvTranspose2dOptions, Op, OpModel, Pool2dOptions, Reduction, Scalar,
    SliceAxis, Unary, Widths, F32_HALF, F32_NAN, F32_NEG_HALF, F32_ONE, F32_ZERO,
};
use crate::shape::{
    axis_span, collapsed, contains_extent, gathered, is_permutation, lemma_volume_nonnegative, span,
    volume,
};
use crate::shape_ops::swapped;
use crate::sound::{
    agree_except, attention_fits, axis_total, conv_fits, conv_transpose_fits, dilated, hwio,
    matmul_fits, padding_fits, pool_fits, slice_dims, sound, transposed_extent, window_count,
};
use vstd::prelude::*;

verus! {

/// `2 / sqrt(pi)` in F32.
pub const TWO_OVER_ROOT_PI: u32 = 0x3f90_6eba;

/// What an operation contributes: operand numbers with gradients, in order.
pub type Parts = Seq<(nat, Expr)>;

/// No contribution.
pub open spec fn no_parts() -> Parts {
    Seq::empty()
}

/// One contribution.
pub open spec fn one_part(i: nat, a: Expr) -> Parts {
    seq![(i, a)]
}

/// Two contributions, built in order.
pub open spec fn two_parts(i: nat, a: Expr, j: nat, b: Expr) -> Parts {
    seq![(i, a), (j, b)]
}

/// Whether the contribution at a place is the first that fails.
pub open spec fn fails_at(parts: Parts, at: int, error: Error) -> bool {
    &&& 0 <= at < parts.len()
    &&& parts[at].1 == Expr::Fails(error)
    &&& forall|j: int| 0 <= j < at ==> (#[trigger] parts[j]).1 is Is
}

/// Whether some contribution is the first that fails.
#[verifier::opaque]
pub open spec fn refused(parts: Parts, error: Error) -> bool {
    exists|at: int| #[trigger] fails_at(parts, at, error)
}

/// Whether the handles stand for the contributions.
#[verifier::opaque]
pub open spec fn granted(graph: Graph, list: Seq<(usize, Tensor)>, parts: Parts) -> bool {
    &&& list.len() == parts.len()
    &&& forall|k: int|
        0 <= k < list.len() ==> graph.owns((#[trigger] list[k]).1) && parts[k].0 == list[k].0
            && parts[k].1 == Expr::Is(list[k].1@)
}

/// The outcome of recording contributions.
pub open spec fn yields_parts(
    graph: Graph,
    r: Result<Vec<(usize, Tensor)>, Error>,
    parts: Parts,
) -> bool {
    match r {
        Ok(list) => granted(graph, list@, parts),
        Err(e) => refused(parts, e),
    }
}

pub broadcast proof fn one_refused(i: nat, a: Expr, error: Error)
    requires
        a == Expr::Fails(error),
    ensures
        #[trigger] refused(one_part(i, a), error),
{
    reveal(refused);
    assert(fails_at(one_part(i, a), 0, error));
}

pub broadcast proof fn first_refused(i: nat, a: Expr, j: nat, b: Expr, error: Error)
    requires
        a == Expr::Fails(error) || (a is Is && b == Expr::Fails(error)),
    ensures
        #[trigger] refused(two_parts(i, a, j, b), error),
{
    reveal(refused);
    if a is Is {
        assert(fails_at(two_parts(i, a, j, b), 1, error));
    } else {
        assert(fails_at(two_parts(i, a, j, b), 0, error));
    }
}

pub broadcast group group_parts {
    one_refused,
    first_refused,
}

/// No contribution.
fn nothing() -> (r: Vec<(usize, Tensor)>)
    ensures
        forall|g: Graph| #[trigger] granted(g, r@, no_parts()),
{
    let list: Vec<(usize, Tensor)> = Vec::new();
    proof {
        reveal(granted);
    }
    list
}

/// One contribution.
fn single(i: usize, a: Tensor) -> (r: Vec<(usize, Tensor)>)
    ensures
        forall|g: Graph, e: Expr|
            g.owns(a) && e == a.expr() ==> #[trigger] granted(g, r@, one_part(i as nat, e)),
{
    let list: Vec<(usize, Tensor)> = vec![(i, a)];
    proof {
        reveal(granted);
    }
    list
}

/// Two contributions.
fn double(i: usize, a: Tensor, j: usize, b: Tensor) -> (r: Vec<(usize, Tensor)>)
    ensures
        forall|g: Graph, e: Expr, f: Expr|
            g.owns(a) && g.owns(b) && e == a.expr() && f == b.expr() ==> #[trigger] granted(
                g,
                r@,
                two_parts(i as nat, e, j as nat, f),
            ),
{
    let list: Vec<(usize, Tensor)> = vec![(i, a), (j, b)];
    proof {
        reveal(granted);
    }
    list
}

/// The gradient of an elementwise operation of one operand `x` with result `y`.
#[verifier::opaque]
pub open spec fn unary_gradient(op: Unary, x: Expr, y: Expr, d: Expr) -> Expr {
    match op {
        Unary::Neg => d.neg(),
        Unary::Sin => d.mul(x.cos()),
        Unary::Cos => d.mul(x.sin()).neg(),
        Unary::Exp => d.mul(y),
        Unary::Expm1 => d.mul(x.exp()),
        Unary::Log => d.div(x),
        Unary::Log1p => d.div(x.add_scalar(Scalar::Bits(F32_ONE))),
        Unary::Sqrt => d.div(y).mul_scalar(Scalar::Bits(F32_HALF)),
        Unary::Rsqrt => d.mul(y.mul(y).mul(y)).mul_scalar(Scalar::Bits(F32_NEG_HALF)),
        Unary::Tanh => d.mul(y.mul(y).neg().add_scalar(Scalar::Bits(F32_ONE))),
        Unary::Erf => d.mul(x.mul(x).neg().exp()).mul_scalar(Scalar::Bits(TWO_OVER_ROOT_PI)),
        _ => abs_gradient(x, d),
    }
}

/// The gradient of an absolute value: zero at zero, NaN at NaN.
pub open spec fn abs_gradient(x: Expr, d: Expr) -> Expr {
    let zero = x.filled(Scalar::Bits(F32_ZERO));
    let nan = x.filled(Scalar::Bits(F32_NAN)).given(zero);
    let at_zero = x.eq_mask(zero).given(nan).select(zero, nan);
    let above = x.gt_mask(zero).given(at_zero);
    let below = x.lt_mask(zero).given(above);
    above.select(d, below.select(d.neg().given(below), at_zero))
}

/// Whether rounding, whose gradient is zero by convention.
pub open spec fn is_rounding(op: Unary) -> bool {
    op == Unary::Floor || op == Unary::Ceil || op == Unary::Round || op == Unary::RoundTiesEven
}

/// The gradient of one side of a maximum or minimum, ties split equally.
#[verifier::opaque]
pub open spec fn extremum_gradients(maximum: bool, a: Expr, b: Expr, d: Expr) -> Parts {
    let zero = a.filled(Scalar::Bits(F32_ZERO));
    let nan = a.filled(Scalar::Bits(F32_NAN)).given(zero);
    let equal = a.eq_mask(b).given(nan);
    let tie = equal.select(d.mul_scalar(Scalar::Bits(F32_HALF)).given(equal), nan);
    let left = (if maximum {
        a.gt_mask(b)
    } else {
        a.lt_mask(b)
    }).given(tie);
    let right = (if maximum {
        a.lt_mask(b)
    } else {
        a.gt_mask(b)
    }).given(left);
    two_parts(
        0,
        left.given(right).select(d, right.select(zero, tie)),
        1,
        right.select(d, left.select(zero, tie)),
    )
}

/// The gradients of an elementwise operation of two operands.
pub open spec fn binary_gradients(op: Binary, a: Expr, b: Expr, d: Expr) -> Parts {
    match op {
        Binary::Add => two_parts(0, d, 1, d),
        Binary::Sub => two_parts(0, d, 1, d.neg()),
        Binary::Mul => two_parts(0, d.mul(b), 1, d.mul(a)),
        Binary::Div => two_parts(0, d.div(b), 1, d.mul(a.div(b)).div(b).neg()),
        Binary::Maximum => extremum_gradients(true, a, b, d),
        Binary::Minimum => extremum_gradients(false, a, b, d),
    }
}

/// The gradient of a rectifier: zero at zero.
pub open spec fn relu_gradient(x: Expr, d: Expr) -> Expr {
    let zero = x.filled(Scalar::Bits(F32_ZERO));
    x.gt_mask(zero).select(d, zero)
}

/// The gradient of a logistic sigmoid with result `y`.
pub open spec fn sigmoid_gradient(x: Expr, y: Expr, d: Expr) -> Expr {
    let complement = x.neg().sigmoid();
    d.given(complement).mul(y).mul(complement)
}

/// The gradients of the branches of a choice.
pub open spec fn select_gradients(mask: Expr, d: Expr) -> Parts {
    let zero = d.filled(Scalar::Bits(F32_ZERO));
    two_parts(1, mask.given(zero).select(d, zero), 2, mask.select(zero, d))
}

/// The gradients of inputs with explicit diagonal derivatives.
pub open spec fn diagonal_gradients(args: Seq<Value>, d: Expr) -> Parts {
    Seq::new(
        ((args.len() - 1) / 2) as nat,
        |k: int| ((2 * k + 1) as nat, d.mul(Expr::Is(args[2 * k + 2]))),
    )
}

/// The gradients of concatenated operands: consecutive regions.
pub open spec fn concatenate_gradients(args: Seq<Value>, axis: usize, d: Expr) -> Parts {
    Seq::new(
        args.len(),
        |k: int|
            (
                k as nat,
                d.narrow(axis, axis_total(args.take(k), axis) as i64, args[k].dims[axis as int]),
            ),
    )
}

/// The position of every axis in a permutation.
pub open spec fn inverse_of(permutation: Seq<usize>) -> Seq<usize> {
    Seq::new(permutation.len(), |axis: int| permutation.index_of(axis as usize) as usize)
}

/// Whether a broadcast repeats along an axis.
pub open spec fn repeats(axes: Seq<usize>, from: Seq<i64>, to: Seq<i64>, axis: int) -> bool {
    match axes.index_of_first(axis as usize) {
        None => true,
        Some(place) => from[place] == 1 && to[axis] != 1,
    }
}

/// The axes, among the first `count`, along which a broadcast repeats.
pub open spec fn repeated_axes(axes: Seq<usize>, from: Seq<i64>, to: Seq<i64>, count: nat) -> Seq<
    usize,
>
    decreases count,
{
    if count == 0 {
        Seq::empty()
    } else {
        let rest = repeated_axes(axes, from, to, (count - 1) as nat);
        if repeats(axes, from, to, count - 1) {
            rest.push((count - 1) as usize)
        } else {
            rest
        }
    }
}

/// The gradient of a broadcast: the sum over everything it repeated.
pub open spec fn broadcast_gradient(
    axes: Seq<usize>,
    from: Seq<i64>,
    to: Seq<i64>,
    d: Expr,
) -> Expr {
    d.sum(repeated_axes(axes, from, to, to.len()), true).reshape(from)
}

/// The cotangent of a reduction, spread over the operand.
#[verifier::opaque]
pub open spec fn spread(d: Expr, dims: Seq<i64>, axes: Seq<usize>) -> Expr {
    d.reshape(collapsed(dims, axes)).broadcast_to(dims)
}

/// How often the mask holds along the axes, spread over the operand.
#[verifier::opaque]
pub open spec fn tally(mask: Expr, dims: Seq<i64>, axes: Seq<usize>, stop: bool) -> Expr {
    let total = mask.sum(axes, true);
    if stop {
        total.detach().broadcast_to(dims)
    } else {
        total.broadcast_to(dims)
    }
}

/// The gradient of a maximum over axes: shared by all winners, NaN where the
/// operand has a NaN.
#[verifier::opaque]
pub open spec fn maximum_gradient(
    x: Expr,
    y: Expr,
    spread_d: Expr,
    dims: Seq<i64>,
    axes: Seq<usize>,
) -> Expr {
    let winner = spread(y, dims, axes);
    let mask = x.eq_mask(winner);
    let count = tally(mask, dims, axes, true).given(mask);
    let zero = x.filled(Scalar::Bits(F32_ZERO)).given(count);
    let nan = x.filled(Scalar::Bits(F32_NAN)).given(zero);
    let share = spread_d.given(nan).div(count);
    let shared = mask.given(share).select(share, zero);
    let odd = x.ne_mask(x).given(shared);
    let nan_count = tally(odd, dims, axes, false).given(odd);
    let some = count.gt_mask(zero).given(nan_count);
    let usual = some.select(shared, nan);
    let spoiled = nan_count.gt_mask(zero).given(usual);
    spoiled.select(nan, usual)
}

/// The gradient of a reduction over axes.
pub open spec fn reduce_gradient(
    kind: Reduction,
    x: Expr,
    y: Expr,
    d: Expr,
    dims: Seq<i64>,
    axes: Seq<usize>,
) -> Expr {
    let spread_d = spread(d, dims, axes);
    match kind {
        Reduction::Sum => spread_d,
        Reduction::Maximum => maximum_gradient(x, y, spread_d, dims, axes).given(spread_d),
    }
}

/// The gradient of a running sum: the running sum from the other end.
pub open spec fn cumsum_gradient(axis: usize, d: Expr) -> Expr {
    d.flip(seq![axis]).cumsum(axis).flip(seq![axis])
}

/// The region of padded data that holds the operand.
pub open spec fn pad_interior(dims: Seq<i64>, padding: Seq<Widths>) -> Seq<SliceAxis> {
    Seq::new(
        padding.len(),
        |i: int|
            SliceAxis {
                start: padding[i].0,
                limit: (padding[i].0 + dims[i]) as i64,
                stride: 1,
            },
    )
}

/// The gradient of a padding value: the sum over the border alone.
#[verifier::opaque]
pub open spec fn border_gradient(
    graph: u64,
    dims: Seq<i64>,
    padding: Seq<Widths>,
    d: Expr,
) -> Expr {
    let zero = scalar(graph, Scalar::Bits(F32_ZERO));
    let one = scalar(graph, Scalar::Bits(F32_ONE)).given(zero);
    let interior = one.broadcast_to(dims).pad(padding, Scalar::Bits(F32_ZERO));
    let out = d->Is_0.dims;
    let border = interior.select(zero.broadcast_to(out), d);
    border.sum(span(0, out.len()), false)
}

/// The gradients of constant padding: the interior, and the border's sum.
pub open spec fn pad_gradients(
    graph: u64,
    dims: Seq<i64>,
    padding: Seq<Widths>,
    d: Expr,
) -> Parts {
    two_parts(
        0,
        d.sliced(pad_interior(dims, padding)),
        1,
        border_gradient(graph, dims, padding, d),
    )
}

/// The axes of a matrix shape with the last two exchanged.
pub open spec fn transposing(rank: nat) -> Seq<usize> {
    swapped(rank, (rank - 2) as usize, (rank - 1) as usize)
}

/// The gradients of a matrix product.
pub open spec fn matmul_gradients(a: Value, b: Value, d: Expr) -> Parts {
    let permutation = transposing(a.dims.len());
    two_parts(
        0,
        d.matmul(Expr::Is(b).transpose(permutation)),
        1,
        Expr::Is(a).transpose(permutation).matmul(d),
    )
}

/// The probabilities of attention.
#[verifier::opaque]
pub open spec fn attention_weights(args: Seq<Value>, scale: Scalar) -> Expr {
    let rank = args[0].dims.len();
    let transposed = Expr::Is(args[1]).swap_axes((rank - 2) as usize, (rank - 1) as usize);
    let scores = Expr::Is(args[0]).matmul(transposed).mul_scalar(scale);
    let masked = if args.len() == 4 {
        scores.add(Expr::Is(args[3]))
    } else {
        scores
    };
    masked.softmax((rank - 1) as usize)
}

/// The gradient of the scores of attention.
#[verifier::opaque]
pub open spec fn score_gradient(weights: Expr, value: Value, d: Expr) -> Expr {
    let rank = value.dims.len();
    let transposed = Expr::Is(value).swap_axes((rank - 2) as usize, (rank - 1) as usize);
    let outer = d.matmul(transposed);
    let level = outer.mul(weights).sum(seq![(rank - 1) as usize], true).broadcast_to(
        weights->Is_0.dims,
    );
    weights.given(level).mul(outer.sub(level))
}

/// The gradients of attention: queries, keys, values and the mask.
pub open spec fn attention_gradients(args: Seq<Value>, scale: Scalar, d: Expr) -> Parts {
    let rank = args[0].dims.len();
    let weights = attention_weights(args, scale);
    let scores = score_gradient(weights, args[2], d).given(weights);
    let queries = scores.matmul(Expr::Is(args[1])).mul_scalar(scale);
    let keys = scores.swap_axes((rank - 2) as usize, (rank - 1) as usize).matmul(
        Expr::Is(args[0]),
    ).mul_scalar(scale);
    let values = weights.swap_axes((rank - 2) as usize, (rank - 1) as usize).matmul(d);
    let parts = seq![(0nat, queries), (1nat, keys), (2nat, values)];
    if args.len() == 4 {
        parts.push((3nat, scores))
    } else {
        parts
    }
}

/// Zero gradients of both operands.
pub open spec fn zero_gradients(a: Value, b: Value) -> Parts {
    two_parts(
        0,
        scalar(a.graph, Scalar::Bits(F32_ZERO)).broadcast_to(a.dims),
        1,
        scalar(a.graph, Scalar::Bits(F32_ZERO)).broadcast_to(b.dims),
    )
}

/// How much longer an operand is than a transposed convolution of the output
/// with the kernel.
pub open spec fn shortfall(
    size: i64,
    output: i64,
    kernel: i64,
    stride: i64,
    widths: Widths,
    dilation: i64,
) -> i64 {
    (size - transposed_extent(output, kernel, stride, widths, dilation, 0)) as i64
}

/// The gradient of the data of a convolution with an HWIO kernel.
pub open spec fn conv_data_gradient(
    d: Expr,
    kernel: Expr,
    dims: Seq<i64>,
    options: Conv2dOptions,
) -> Expr {
    let out = d->Is_0.dims;
    let k = kernel->Is_0.dims;
    d.conv_transpose2d(
        kernel,
        ConvTranspose2dOptions {
            strides: options.strides,
            padding: options.padding,
            dilation: options.dilation,
            output_padding: (
                shortfall(
                    dims[1],
                    out[1],
                    k[0],
                    options.strides.0,
                    options.padding.0,
                    options.dilation.0,
                ),
                shortfall(
                    dims[2],
                    out[2],
                    k[1],
                    options.strides.1,
                    options.padding.1,
                    options.dilation.1,
                ),
            ),
        },
    )
}

/// The gradient of the data of a convolution: a transposed convolution, which
/// the representation does not support for several groups.
pub open spec fn data_gradient(
    d: Value,
    kernel: Value,
    dims: Seq<i64>,
    options: Conv2dOptions,
) -> Expr {
    if options.groups == 1 {
        conv_data_gradient(Expr::Is(d), Expr::Is(kernel), dims, options)
    } else {
        applied(d.graph, OpModel::Conv2dInputGradient(options), seq![d, kernel], dims)
    }
}

/// The gradients of a convolution with an HWIO kernel.
pub open spec fn conv_gradients(x: Value, kernel: Value, d: Value, options: Conv2dOptions) -> Parts {
    if x.dims.contains(0) || d.dims.contains(0) {
        zero_gradients(x, kernel)
    } else {
        two_parts(
            0,
            data_gradient(d, kernel, x.dims, options),
            1,
            applied(d.graph, OpModel::Conv2dKernelGradient(options), seq![x, d], kernel.dims),
        )
    }
}

/// The gradients of a convolution with an OIHW kernel.
pub open spec fn conv_oihw_gradients(
    x: Value,
    kernel: Value,
    d: Value,
    options: Conv2dOptions,
) -> Parts {
    if x.dims.contains(0) || d.dims.contains(0) {
        zero_gradients(x, kernel)
    } else {
        match Expr::Is(kernel).transpose(seq![2, 3, 1, 0]) {
            Expr::Fails(e) => two_parts(0, Expr::Fails(e), 1, Expr::Fails(e)),
            Expr::Is(turned) => {
                let data = data_gradient(d, turned, x.dims, options);
                let weights = applied(
                    d.graph,
                    OpModel::Conv2dKernelGradient(options),
                    seq![x, d],
                    hwio(kernel.dims),
                );
                two_parts(
                    0,
                    data.given(weights.given(data)),
                    1,
                    weights.transpose(seq![3, 2, 0, 1]),
                )
            },
        }
    }
}

/// The attributes of the convolution that a transposed convolution adjoins.
pub open spec fn adjoint_options(options: ConvTranspose2dOptions) -> Conv2dOptions {
    Conv2dOptions {
        strides: options.strides,
        padding: options.padding,
        dilation: options.dilation,
        groups: 1,
    }
}

/// The gradients of a transposed convolution.
pub open spec fn conv_transpose_gradients(
    x: Value,
    kernel: Value,
    d: Value,
    options: ConvTranspose2dOptions,
) -> Parts {
    if x.dims.contains(0) {
        zero_gradients(x, kernel)
    } else {
        let adjoint = adjoint_options(options);
        two_parts(
            0,
            Expr::Is(d).conv2d(Expr::Is(kernel), adjoint),
            1,
            applied(d.graph, OpModel::Conv2dKernelGradient(adjoint), seq![d, x], kernel.dims),
        )
    }
}

/// The rows that windows leave over along one axis.
pub open spec fn pool_rest(size: i64, window: i64, stride: i64, widths: Widths) -> i64 {
    ((size + widths.0 + widths.1 - window) % stride as int) as i64
}

/// The gradient of sums over windows: a transposed convolution with ones, with
/// channels as independent batches.
pub open spec fn sum_pool_gradient(d: Value, dims: Seq<i64>, options: Pool2dOptions) -> Expr {
    if dims.contains(0) || d.dims.contains(0) {
        scalar(d.graph, Scalar::Bits(F32_ZERO)).broadcast_to(dims)
    } else if dims[0] * dims[3] > i64::MAX {
        Expr::invalid("pool gradient batch/channel size overflow")
    } else {
        windows_gradient(d, dims, options)
    }
}

/// Output cotangents laid out as independent single-channel images.
pub open spec fn single_channels(d: Value, dims: Seq<i64>) -> Expr {
    Expr::Is(d).transpose(seq![0, 3, 1, 2]).reshape(
        seq![(dims[0] * dims[3]) as i64, d.dims[1], d.dims[2], 1],
    )
}

/// Every cotangent spread over its window.
#[verifier::opaque]
pub open spec fn windows_gradient(d: Value, dims: Seq<i64>, options: Pool2dOptions) -> Expr {
    let images = single_channels(d, dims);
    let kernel = scalar(d.graph, Scalar::Bits(F32_ONE)).broadcast_to(
        seq![options.window.0, options.window.1, 1, 1],
    ).given(images);
    images.given(kernel).conv_transpose2d(
        kernel,
        ConvTranspose2dOptions {
            strides: options.strides,
            padding: options.padding,
            dilation: (1, 1),
            output_padding: (
                pool_rest(dims[1], options.window.0, options.strides.0, options.padding.0),
                pool_rest(dims[2], options.window.1, options.strides.1, options.padding.1),
            ),
        },
    ).reshape(seq![dims[0], dims[3], dims[1], dims[2]]).transpose(seq![0, 2, 3, 1])
}

/// The gradients of a dynamic slice.
pub open spec fn dynamic_slice_gradient(source: Value, starts: Seq<Value>, d: Expr) -> Expr {
    let zero = scalar(source.graph, Scalar::Bits(F32_ZERO));
    zero.broadcast_to(source.dims).dynamic_update_slice(d, starts)
}

/// The gradients of a dynamic update.
pub open spec fn dynamic_update_gradients(update: Value, starts: Seq<Value>, d: Expr) -> Parts {
    let zero = scalar(update.graph, Scalar::Bits(F32_ZERO)).broadcast_to(update.dims);
    two_parts(
        0,
        d.given(zero).dynamic_update_slice(zero, starts),
        1,
        d.dynamic_slice(starts, update.dims),
    )
}

/// Whether an operation has a derivative rule.
pub open spec fn differentiable(op: OpModel) -> bool {
    match op {
        OpModel::ConstantI32(..)
        | OpModel::Iota { .. }
        | OpModel::IntegerBinary(..)
        | OpModel::CompareMask(..)
        | OpModel::IndexLessEqualMask
        | OpModel::IsFiniteMask
        | OpModel::ArgMax { .. }
        | OpModel::SortedIndices { .. }
        | OpModel::MaxPool2d(..)
        | OpModel::GetDimensionSize { .. }
        | OpModel::If
        | OpModel::MultiResult
        | OpModel::CustomCall { .. } => false,
        _ => true,
    }
}

/// Whether gradients pass from an operation to an operand.
pub open spec fn follows(op: OpModel, operand: int) -> bool {
    match op {
        OpModel::StopGradient | OpModel::IndexToFloat | OpModel::Bf16ToFloat => false,
        OpModel::Unary(u) => !is_rounding(u),
        OpModel::WithGradient => operand == 1,
        OpModel::WithElementwiseDerivative => operand % 2 == 1,
        OpModel::Select => operand >= 1,
        OpModel::Take { .. }
        | OpModel::TakeAlongAxis { .. }
        | OpModel::GatherGradient { .. }
        | OpModel::DynamicSlice => operand == 0,
        OpModel::DynamicUpdateSlice => operand < 2,
        _ => true,
    }
}

/// What an operation contributes to the gradients of its operands, given the
/// gradient of its result.
#[verifier::opaque]
pub open spec fn rule(v: Value, dy: Value) -> Parts {
    let d = Expr::Is(dy);
    let y = Expr::Is(v);
    let x = Expr::Is(v.args[0]);
    match v.op {
        OpModel::StateWrite { .. } => one_part(0, d),
        OpModel::Convert { .. } => if is_floating(v.args[0].dtype) {
            one_part(0, d.cast(v.args[0].dtype))
        } else {
            no_parts()
        },
        OpModel::WithGradient => one_part(1, d),
        OpModel::WithElementwiseDerivative => diagonal_gradients(v.args, d),
        OpModel::Attention { scale } => attention_gradients(v.args, scale, d),
        OpModel::Relu => one_part(0, relu_gradient(x, d)),
        OpModel::Softplus => one_part(0, d.mul(x.sigmoid())),
        OpModel::Sigmoid => one_part(0, sigmoid_gradient(x, y, d)),
        OpModel::Select => select_gradients(x, d),
        OpModel::Binary(op) => binary_gradients(op, x, Expr::Is(v.args[1]), d),
        OpModel::Unary(op) => if is_rounding(op) {
            no_parts()
        } else {
            one_part(0, unary_gradient(op, x, y, d))
        },
        OpModel::Reshape => one_part(0, d.reshape(v.args[0].dims)),
        OpModel::OptimizationBarrier => one_part(0, d.optimization_barrier()),
        OpModel::Slice(axes) => one_part(
            0,
            applied(dy.graph, OpModel::SliceGradient(axes), seq![dy], v.args[0].dims),
        ),
        OpModel::SliceGradient(axes) => one_part(0, d.sliced(axes)),
        OpModel::Pad(padding) => pad_gradients(v.graph, v.args[0].dims, padding, d),
        OpModel::Concatenate { axis } => concatenate_gradients(v.args, axis, d),
        OpModel::Reverse { axes } => one_part(0, d.flip(axes)),
        OpModel::Transpose { permutation } => one_part(0, d.transpose(inverse_of(permutation))),
        OpModel::Broadcast { axes } => one_part(
            0,
            broadcast_gradient(axes, v.args[0].dims, v.dims, d),
        ),
        OpModel::Cumsum { axis } => one_part(0, cumsum_gradient(axis, d)),
        OpModel::Reduce { kind, axes } => one_part(
            0,
            reduce_gradient(kind, x, y, d, v.args[0].dims, axes),
        ),
        OpModel::Matmul { .. } => matmul_gradients(v.args[0], v.args[1], d),
        OpModel::SumPool2d(options) => one_part(
            0,
            sum_pool_gradient(dy, v.args[0].dims, options),
        ),
        OpModel::Conv2dInputGradient(options) => two_parts(
            0,
            d.conv2d(Expr::Is(v.args[1]), options),
            1,
            applied(
                dy.graph,
                OpModel::Conv2dKernelGradient(options),
                seq![dy, v.args[0]],
                v.args[1].dims,
            ),
        ),
        OpModel::Conv2dKernelGradient(options) => two_parts(
            0,
            applied(
                dy.graph,
                OpModel::Conv2dInputGradient(options),
                seq![v.args[1], dy],
                v.args[0].dims,
            ),
            1,
            x.conv2d(d, options),
        ),
        OpModel::ConvTranspose2d(options) => conv_transpose_gradients(
            v.args[0],
            v.args[1],
            dy,
            options,
        ),
        OpModel::Conv2d(options) => conv_gradients(v.args[0], v.args[1], dy, options),
        OpModel::Conv2dOihw(options) => conv_oihw_gradients(v.args[0], v.args[1], dy, options),
        OpModel::DynamicSlice => one_part(
            0,
            dynamic_slice_gradient(v.args[0], v.args.skip(1), d),
        ),
        OpModel::DynamicUpdateSlice => dynamic_update_gradients(v.args[1], v.args.skip(2), d),
        OpModel::GatherGradient { axis, batched } => one_part(
            0,
            if batched {
                d.take_along_axis(Expr::Is(v.args[1]), axis)
            } else {
                d.take(Expr::Is(v.args[1]), axis)
            },
        ),
        OpModel::Take { axis } => one_part(
            0,
            applied(
                dy.graph,
                OpModel::GatherGradient { axis, batched: false },
                seq![dy, v.args[1]],
                v.args[0].dims,
            ),
        ),
        OpModel::TakeAlongAxis { axis } => one_part(
            0,
            applied(
                dy.graph,
                OpModel::GatherGradient { axis, batched: true },
                seq![dy, v.args[1]],
                v.args[0].dims,
            ),
        ),
        _ => no_parts(),
    }
}

/// The gradient of an elementwise operation of one operand.
fn unary_rule(
    graph: &mut Graph,
    op: Unary,
    x: &Tensor,
    y: &Tensor,
    d: &Tensor,
) -> (r: Result<Tensor, Error>)
    requires
        old(graph).wf(),
        old(graph).owns(*x),
        old(graph).owns(*y),
        old(graph).owns(*d),
    ensures
        final(graph).extends(*old(graph)),
        final(graph).yields(r, unary_gradient(op, x.expr(), y.expr(), d.expr())),
{
    proof {
        reveal(unary_gradient);
        reveal(Expr::add_scalar);
        reveal(Expr::mul_scalar);
    }
    match op {
        Unary::Neg => d.neg(graph),
        Unary::Sin => {
            let slope: Tensor = x.cos(graph)?;
            d.mul(graph, &slope)
        },
        Unary::Cos => {
            let slope: Tensor = x.sin(graph)?;
            d.mul(graph, &slope)?.neg(graph)
        },
        Unary::Exp => d.mul(graph, y),
        Unary::Expm1 => {
            let slope: Tensor = x.exp(graph)?;
            d.mul(graph, &slope)
        },
        Unary::Log => d.div(graph, x),
        Unary::Log1p => {
            let shifted: Tensor = x.add_scalar(graph, Scalar::Bits(F32_ONE))?;
            d.div(graph, &shifted)
        },
        Unary::Sqrt => d.div(graph, y)?.mul_scalar(graph, Scalar::Bits(F32_HALF)),
        Unary::Rsqrt => {
            let cube: Tensor = y.mul(graph, y)?.mul(graph, y)?;
            d.mul(graph, &cube)?.mul_scalar(graph, Scalar::Bits(F32_NEG_HALF))
        },
        Unary::Tanh => {
            let slope: Tensor = y.mul(graph, y)?.neg(graph)?.add_scalar(graph, Scalar::Bits(F32_ONE))?;
            d.mul(graph, &slope)
        },
        Unary::Erf => {
            let slope: Tensor = x.mul(graph, x)?.neg(graph)?.exp(graph)?;
            d.mul(graph, &slope)?.mul_scalar(graph, Scalar::Bits(TWO_OVER_ROOT_PI))
        },
        _ => abs_rule(graph, x, d),
    }
}

/// The gradient of an absolute value.
fn abs_rule(
    graph: &mut Graph,
    x: &Tensor,
    d: &Tensor,
) -> (r: Result<Tensor, Error>)
    requires
        old(graph).wf(),
        old(graph).owns(*x),
        old(graph).owns(*d),
    ensures
        final(graph).extends(*old(graph)),
        final(graph).yields(r, abs_gradient(x.expr(), d.expr())),
{
    let zero: Tensor = x.filled(graph, Scalar::Bits(F32_ZERO))?;
    let nan: Tensor = x.filled(graph, Scalar::Bits(F32_NAN))?;
    let at_zero: Tensor = x.eq_mask(graph, &zero)?.select(graph, &zero, &nan)?;
    let above: Tensor = x.gt_mask(graph, &zero)?;
    let below: Tensor = x.lt_mask(graph, &zero)?;
    let negated: Tensor = d.neg(graph)?;
    let rest: Tensor = below.select(graph, &negated, &at_zero)?;
    above.select(graph, d, &rest)
}

/// The gradients of a maximum or minimum.
#[verifier::rlimit(30)]
fn extremum_rule(
    graph: &mut Graph,
    maximum: bool,
    a: &Tensor,
    b: &Tensor,
    d: &Tensor,
) -> (r: Result<Vec<(usize, Tensor)>, Error>)
    requires
        old(graph).wf(),
        old(graph).owns(*a),
        old(graph).owns(*b),
        old(graph).owns(*d),
    ensures
        final(graph).extends(*old(graph)),
        yields_parts(*final(graph), r, extremum_gradients(maximum, a.expr(), b.expr(), d.expr())),
{
    proof {
        broadcast use group_parts;
        reveal(extremum_gradients);
    }
    let zero: Tensor = a.filled(graph, Scalar::Bits(F32_ZERO))?;
    let nan: Tensor = a.filled(graph, Scalar::Bits(F32_NAN))?;
    let equal: Tensor = a.eq_mask(graph, b)?;
    let half: Tensor = d.mul_scalar(graph, Scalar::Bits(F32_HALF))?;
    let tie: Tensor = equal.select(graph, &half, &nan)?;
    let left: Tensor = if maximum {
        a.gt_mask(graph, b)?
    } else {
        a.lt_mask(graph, b)?
    };
    let right: Tensor = if maximum {
        a.lt_mask(graph, b)?
    } else {
        a.gt_mask(graph, b)?
    };
    let rest: Tensor = right.select(graph, &zero, &tie)?;
    let first: Tensor = left.select(graph, d, &rest)?;
    let rest: Tensor = left.select(graph, &zero, &tie)?;
    let second: Tensor = right.select(graph, d, &rest)?;
    Ok(double(0, first, 1, second))
}

/// The gradients of an elementwise operation of two operands.
fn binary_rule(
    graph: &mut Graph,
    op: Binary,
    a: &Tensor,
    b: &Tensor,
    d: &Tensor,
) -> (r: Result<Vec<(usize, Tensor)>, Error>)
    requires
        old(graph).wf(),
        old(graph).owns(*a),
        old(graph).owns(*b),
        old(graph).owns(*d),
    ensures
        final(graph).extends(*old(graph)),
        yields_parts(*final(graph), r, binary_gradients(op, a.expr(), b.expr(), d.expr())),
{
    proof {
        broadcast use group_parts;
    }
    match op {
        Binary::Add => Ok(double(0, d.copy(), 1, d.copy())),
        Binary::Sub => {
            let second: Tensor = d.neg(graph)?;
            Ok(double(0, d.copy(), 1, second))
        },
        Binary::Mul => {
            let first: Tensor = d.mul(graph, b)?;
            let second: Tensor = d.mul(graph, a)?;
            Ok(double(0, first, 1, second))
        },
        Binary::Div => {
            let first: Tensor = d.div(graph, b)?;
            let ratio: Tensor = a.div(graph, b)?;
            let second: Tensor = d.mul(graph, &ratio)?.div(graph, b)?.neg(graph)?;
            Ok(double(0, first, 1, second))
        },
        Binary::Maximum => extremum_rule(graph, true, a, b, d),
        Binary::Minimum => extremum_rule(graph, false, a, b, d),
    }
}

/// The gradient of a rectifier.
fn relu_rule(
    graph: &mut Graph,
    x: &Tensor,
    d: &Tensor,
) -> (r: Result<Tensor, Error>)
    requires
        old(graph).wf(),
        old(graph).owns(*x),
        old(graph).owns(*d),
    ensures
        final(graph).extends(*old(graph)),
        final(graph).yields(r, relu_gradient(x.expr(), d.expr())),
{
    let zero: Tensor = x.filled(graph, Scalar::Bits(F32_ZERO))?;
    x.gt_mask(graph, &zero)?.select(graph, d, &zero)
}

/// The gradient of a logistic sigmoid.
fn sigmoid_rule(
    graph: &mut Graph,
    x: &Tensor,
    y: &Tensor,
    d: &Tensor,
) -> (r: Result<Tensor, Error>)
    requires
        old(graph).wf(),
        old(graph).owns(*x),
        old(graph).owns(*y),
        old(graph).owns(*d),
    ensures
        final(graph).extends(*old(graph)),
        final(graph).yields(r, sigmoid_gradient(x.expr(), y.expr(), d.expr())),
{
    let complement: Tensor = x.neg(graph)?.sigmoid(graph)?;
    d.mul(graph, y)?.mul(graph, &complement)
}

/// The gradients of the branches of a choice.
fn select_rule(
    graph: &mut Graph,
    mask: &Tensor,
    d: &Tensor,
) -> (r: Result<Vec<(usize, Tensor)>, Error>)
    requires
        old(graph).wf(),
        old(graph).owns(*mask),
        old(graph).owns(*d),
    ensures
        final(graph).extends(*old(graph)),
        yields_parts(*final(graph), r, select_gradients(mask.expr(), d.expr())),
{
    proof {
        broadcast use group_parts;
    }
    let zero: Tensor = d.filled(graph, Scalar::Bits(F32_ZERO))?;
    let first: Tensor = mask.select(graph, d, &zero)?;
    let second: Tensor = mask.select(graph, &zero, d)?;
    Ok(double(1, first, 2, second))
}

impl Graph {
    /// Every handle of the list is to a value of this graph.
    pub open spec fn owns_all(self, list: Seq<Tensor>) -> bool {
        forall|k: int| 0 <= k < list.len() ==> self.owns(#[trigger] list[k])
    }
}

/// The gradients of inputs with explicit derivatives.
fn diagonal_rule(
    graph: &mut Graph,
    args: &Vec<Tensor>,
    d: &Tensor,
) -> (r: Result<Vec<(usize, Tensor)>, Error>)
    requires
        old(graph).wf(),
        old(graph).owns_all(args@),
        old(graph).owns(*d),
        args@.len() >= 3,
        args@.len() % 2 == 1,
    ensures
        final(graph).extends(*old(graph)),
        yields_parts(*final(graph), r, diagonal_gradients(values_of(args@), d.expr())),
{
    let ghost parts = diagonal_gradients(values_of(args@), d.expr());
    let mut list: Vec<(usize, Tensor)> = Vec::new();
    let total: usize = (args.len() - 1) / 2;
    let mut at: usize = 0;
    while at < total
        invariant
            graph.extends(*old(graph)),
            old(graph).owns_all(args@),
            old(graph).owns(*d),
            parts == diagonal_gradients(values_of(args@), d.expr()),
            total == (args@.len() - 1) / 2,
            args@.len() <= usize::MAX,
            at <= total,
            list@.len() == at,
            forall|k: int|
                0 <= k < list@.len() ==> graph.owns((#[trigger] list@[k]).1) && parts[k].0 == list@[k].0
                    && parts[k].1 == Expr::Is(list@[k].1@),
        decreases total - at,
    {
        assert(parts[at as int] == (
            (2 * at + 1) as nat,
            d.expr().mul(Expr::Is(values_of(args@)[2 * at + 2])),
        ));
        assert(graph.owns(args@[2 * at + 2]));
        let part: Tensor = match d.mul(graph, &args[2 * at + 2]) {
            Ok(part) => part,
            Err(e) => {
                proof {
                    reveal(refused);
                    assert forall|j: int| 0 <= j < at implies (#[trigger] parts[j]).1 is Is by {
                        assert(parts[j].1 == Expr::Is(list@[j].1@));
                    }
                    assert(fails_at(parts, at as int, e));
                }
                return Err(e);
            },
        };
        list.push((2 * at + 1, part));
        at += 1;
    }
    proof {
        reveal(granted);
    }
    Ok(list)
}

/// The gradients of concatenated operands.
fn concatenate_rule(
    graph: &mut Graph,
    args: &Vec<Tensor>,
    axis: usize,
    d: &Tensor,
) -> (r: Result<Vec<(usize, Tensor)>, Error>)
    requires
        old(graph).wf(),
        old(graph).owns_all(args@),
        old(graph).owns(*d),
        axis < d@.dims.len(),
        axis_total(values_of(args@), axis) == d@.dims[axis as int],
        forall|k: int| 0 <= k < args@.len() ==> agree_except((#[trigger] values_of(args@)[k]).dims, d@.dims, axis),
        forall|k: int| 0 <= k < args@.len() ==> volume((#[trigger] values_of(args@)[k]).dims) is Some,
    ensures
        final(graph).extends(*old(graph)),
        yields_parts(*final(graph), r, concatenate_gradients(values_of(args@), axis, d.expr())),
{
    let ghost values = values_of(args@);
    let ghost parts = concatenate_gradients(values, axis, d.expr());
    let mut list: Vec<(usize, Tensor)> = Vec::new();
    let mut start: i64 = 0;
    let mut at: usize = 0;
    while at < args.len()
        invariant
            graph.extends(*old(graph)),
            old(graph).owns_all(args@),
            old(graph).owns(*d),
            values == values_of(args@),
            parts == concatenate_gradients(values, axis, d.expr()),
            axis < d@.dims.len(),
            axis_total(values, axis) == d@.dims[axis as int],
            forall|k: int|
                0 <= k < values.len() ==> agree_except((#[trigger] values[k]).dims, d@.dims, axis),
            forall|k: int| 0 <= k < values.len() ==> volume((#[trigger] values[k]).dims) is Some,
            at <= args@.len(),
            start == axis_total(values.take(at as int), axis),
            list@.len() == at,
            forall|k: int|
                0 <= k < list@.len() ==> graph.owns((#[trigger] list@[k]).1) && parts[k].0 == list@[k].0
                    && parts[k].1 == Expr::Is(list@[k].1@),
        decreases args@.len() - at,
    {
        assert(graph.owns(args@[at as int]));
        assert(agree_except(values[at as int].dims, d@.dims, axis));
        let size: i64 = args[at].shape()[axis];
        proof {
            lemma_volume_nonnegative(args@[at as int]@.dims);
            assert(values.take(at + 1).drop_last() =~= values.take(at as int));
            assert(parts[at as int] == (
                at as nat,
                d.expr().narrow(axis, axis_total(values.take(at as int), axis) as i64, size),
            ));
            lemma_total_grows(values, axis, (at + 1) as nat);
        }
        let part: Tensor = match d.narrow(graph, axis, start, size) {
            Ok(part) => part,
            Err(e) => {
                proof {
                    reveal(refused);
                    assert forall|j: int| 0 <= j < at implies (#[trigger] parts[j]).1 is Is by {
                        assert(parts[j].1 == Expr::Is(list@[j].1@));
                    }
                    assert(fails_at(parts, at as int, e));
                }
                return Err(e);
            },
        };
        list.push((at, part));
        start = start + size;
        at += 1;
    }
    proof {
        reveal(granted);
    }
    Ok(list)
}

/// A partial sum of extents is at most the whole.
pub(crate) proof fn lemma_total_grows(values: Seq<Value>, axis: usize, count: nat)
    requires
        count <= values.len(),
        forall|k: int| 0 <= k < values.len() ==> volume((#[trigger] values[k]).dims) is Some,
        forall|k: int| 0 <= k < values.len() ==> axis < (#[trigger] values[k]).dims.len(),
    ensures
        axis_total(values.take(count as int), axis) <= axis_total(values, axis),
    decreases values.len() - count,
{
    if count < values.len() {
        lemma_total_grows(values, axis, count + 1);
        assert(values.take(count as int + 1).drop_last() =~= values.take(count as int));
        lemma_volume_nonnegative(values[count as int].dims);
    } else {
        assert(values.take(count as int) =~= values);
    }
}

/// The inverse of a permutation.
fn inverse_permutation(permutation: &Vec<usize>) -> (r: Vec<usize>)
    requires
        is_permutation(permutation@, permutation@.len()),
    ensures
        r@ == inverse_of(permutation@),
{
    let rank: usize = permutation.len();
    let mut inverse: Vec<usize> = axis_span(0, rank);
    let mut axis: usize = 0;
    while axis < rank
        invariant
            rank == permutation@.len(),
            is_permutation(permutation@, permutation@.len()),
            axis <= rank,
            inverse@.len() == rank,
            forall|k: int| 0 <= k < axis ==> inverse@[#[trigger] permutation@[k] as int] == k,
        decreases rank - axis,
    {
        let place: usize = permutation[axis];
        inverse.set(place, axis);
        axis += 1;
    }
    proof {
        lemma_permutation_onto(permutation@);
        assert forall|q: int| 0 <= q < rank implies #[trigger] inverse@[q] == inverse_of(
            permutation@,
        )[q] by {
            assert(permutation@.contains(q as usize));
            let k = permutation@.index_of(q as usize);
            assert(permutation@[k] == q);
            assert(inverse@[permutation@[k] as int] == k);
        }
        assert(inverse@ =~= inverse_of(permutation@));
    }
    inverse
}

/// A permutation lists every axis.
pub(crate) proof fn lemma_permutation_onto(permutation: Seq<usize>)
    requires
        is_permutation(permutation, permutation.len()),
    ensures
        forall|q: int| 0 <= q < permutation.len() ==> #[trigger] permutation.contains(q as usize),
{
    let rank = permutation.len();
    let listed = permutation.map_values(|a: usize| a as int).to_set();
    let all = Set::new(|q: int| 0 <= q < rank);
    let ints = permutation.map_values(|a: usize| a as int);
    assert(ints.no_duplicates()) by {
        assert forall|i: int, j: int| 0 <= i < ints.len() && 0 <= j < ints.len() && i != j implies
            ints[i] != ints[j] by {
            assert(permutation[i] != permutation[j]);
        }
    }
    ints.unique_seq_to_set();
    vstd::set_lib::lemma_int_range(0, rank as int);
    assert(all =~= vstd::set_lib::set_int_range(0, rank as int));
    assert forall|q: int| listed.contains(q) implies all.contains(q) by {
        let k = choose|k: int| 0 <= k < ints.len() && ints[k] == q;
        assert(permutation[k] < rank);
    }
    vstd::set_lib::lemma_subset_equality(listed, all);
    assert forall|q: int| 0 <= q < rank implies #[trigger] permutation.contains(q as usize) by {
        assert(all.contains(q));
        assert(listed.contains(q));
        let k = choose|k: int| 0 <= k < ints.len() && ints[k] == q;
        assert(permutation[k] == q as usize);
    }
}

/// The position of an axis in a list, if it is there.
fn place_of(axes: &Vec<usize>, axis: usize) -> (r: Option<usize>)
    ensures
        match r {
            Some(place) => axes@.index_of_first(axis) == Some(place as int) && place < axes@.len(),
            None => axes@.index_of_first(axis) is None,
        },
{
    let mut i: usize = 0;
    while i < axes.len()
        invariant
            i <= axes@.len(),
            forall|j: int| 0 <= j < i ==> axes@[j] != axis,
        decreases axes@.len() - i,
    {
        if axes[i] == axis {
            proof {
                assert(axes@.contains(axis)) by {
                    assert(axes@[i as int] == axis);
                }
                axes@.index_of_first_ensures(axis);
            }
            return Some(i);
        }
        i += 1;
    }
    proof {
        axes@.index_of_first_ensures(axis);
    }
    None
}

/// The axes along which a broadcast repeats.
fn repeating(axes: &Vec<usize>, from: &[i64], to: &[i64]) -> (r: Vec<usize>)
    requires
        axes@.len() == from@.len(),
    ensures
        r@ == repeated_axes(axes@, from@, to@, to@.len()),
{
    let mut list: Vec<usize> = Vec::new();
    let mut axis: usize = 0;
    while axis < to.len()
        invariant
            axes@.len() == from@.len(),
            axis <= to@.len(),
            list@ == repeated_axes(axes@, from@, to@, axis as nat),
        decreases to@.len() - axis,
    {
        let repeat: bool = match place_of(axes, axis) {
            None => true,
            Some(place) => from[place] == 1 && to[axis] != 1,
        };
        assert(repeat == repeats(axes@, from@, to@, axis as int));
        if repeat {
            list.push(axis);
        }
        axis += 1;
    }
    list
}

/// The gradient of a broadcast.
fn broadcast_rule(
    graph: &mut Graph,
    axes: &Vec<usize>,
    from: &[i64],
    d: &Tensor,
) -> (r: Result<Tensor, Error>)
    requires
        old(graph).wf(),
        old(graph).owns(*d),
        axes@.len() == from@.len(),
    ensures
        final(graph).extends(*old(graph)),
        final(graph).yields(r, broadcast_gradient(axes@, from@, d@.dims, d.expr())),
{
    proof {
        reveal(Expr::reduce);
    }
    let reduce: Vec<usize> = repeating(axes, from, d.shape());
    d.sum(graph, reduce.as_slice(), true)?.reshape(graph, from)
}

/// A reduced value, spread over the operand.
fn spread_over(
    graph: &mut Graph,
    d: &Tensor,
    dims: &[i64],
    axes: &Vec<usize>,
) -> (r: Result<Tensor, Error>)
    requires
        old(graph).wf(),
        old(graph).owns(*d),
    ensures
        final(graph).extends(*old(graph)),
        final(graph).yields(r, spread(d.expr(), dims@, axes@)),
{
    proof {
        reveal(spread);
    }
    let single: Vec<i64> = crate::shape::collapse_extents(dims, axes.as_slice());
    d.reshape(graph, single.as_slice())?.broadcast_to(graph, dims)
}

/// How often a mask holds, spread over the operand.
fn tally_over(
    graph: &mut Graph,
    mask: &Tensor,
    dims: &[i64],
    axes: &Vec<usize>,
    stop: bool,
) -> (r: Result<Tensor, Error>)
    requires
        old(graph).wf(),
        old(graph).owns(*mask),
    ensures
        final(graph).extends(*old(graph)),
        final(graph).yields(r, tally(mask.expr(), dims@, axes@, stop)),
{
    proof {
        reveal(tally);
        reveal(Expr::reduce);
    }
    let total: Tensor = mask.sum(graph, axes.as_slice(), true)?;
    if stop {
        total.detach(graph)?.broadcast_to(graph, dims)
    } else {
        total.broadcast_to(graph, dims)
    }
}

/// The gradient of a maximum over axes.
#[verifier::rlimit(60)]
fn maximum_rule(
    graph: &mut Graph,
    x: &Tensor,
    y: &Tensor,
    spread_d: &Tensor,
    axes: &Vec<usize>,
) -> (r: Result<Tensor, Error>)
    requires
        old(graph).wf(),
        old(graph).owns(*x),
        old(graph).owns(*y),
        old(graph).owns(*spread_d),
    ensures
        final(graph).extends(*old(graph)),
        final(graph).yields(r, maximum_gradient(x.expr(), y.expr(), spread_d.expr(), x@.dims, axes@)),
{
    proof {
        reveal(maximum_gradient);
    }
    let winner: Tensor = spread_over(graph, y, x.shape(), axes)?;
    let mask: Tensor = x.eq_mask(graph, &winner)?;
    let count: Tensor = tally_over(graph, &mask, x.shape(), axes, true)?;
    let zero: Tensor = x.filled(graph, Scalar::Bits(F32_ZERO))?;
    let nan: Tensor = x.filled(graph, Scalar::Bits(F32_NAN))?;
    let share: Tensor = spread_d.div(graph, &count)?;
    let shared: Tensor = mask.select(graph, &share, &zero)?;
    let odd: Tensor = x.ne_mask(graph, x)?;
    let nan_count: Tensor = tally_over(graph, &odd, x.shape(), axes, false)?;
    let some: Tensor = count.gt_mask(graph, &zero)?;
    let usual: Tensor = some.select(graph, &shared, &nan)?;
    let spoiled: Tensor = nan_count.gt_mask(graph, &zero)?;
    spoiled.select(graph, &nan, &usual)
}

/// The gradient of a reduction.
fn reduce_rule(
    graph: &mut Graph,
    kind: Reduction,
    x: &Tensor,
    y: &Tensor,
    d: &Tensor,
    axes: &Vec<usize>,
) -> (r: Result<Tensor, Error>)
    requires
        old(graph).wf(),
        old(graph).owns(*x),
        old(graph).owns(*y),
        old(graph).owns(*d),
    ensures
        final(graph).extends(*old(graph)),
        final(graph).yields(r, reduce_gradient(kind, x.expr(), y.expr(), d.expr(), x@.dims, axes@)),
{
    let spread_d: Tensor = spread_over(graph, d, x.shape(), axes)?;
    match kind {
        Reduction::Sum => Ok(spread_d),
        Reduction::Maximum => maximum_rule(graph, x, y, &spread_d, axes),
    }
}

/// The gradient of a running sum.
fn cumsum_rule(
    graph: &mut Graph,
    axis: usize,
    d: &Tensor,
) -> (r: Result<Tensor, Error>)
    requires
        old(graph).wf(),
        old(graph).owns(*d),
    ensures
        final(graph).extends(*old(graph)),
        final(graph).yields(r, cumsum_gradient(axis, d.expr())),
{
    let axes: Vec<usize> = vec![axis];
    assert(axes@ =~= seq![axis]);
    d.flip(graph, axes.as_slice())?.cumsum(graph, axis)?.flip(graph, axes.as_slice())
}

/// The region of padded data that holds the operand.
fn interior_of(dims: &[i64], padding: &Vec<Widths>) -> (r: Vec<SliceAxis>)
    requires
        padding_fits(dims@, padding@),
        volume(dims@) is Some,
    ensures
        r@ == pad_interior(dims@, padding@),
{
    let mut axes: Vec<SliceAxis> = Vec::new();
    let mut i: usize = 0;
    while i < padding.len()
        invariant
            padding_fits(dims@, padding@),
            i <= padding@.len(),
            axes@.len() == i,
            forall|k: int| 0 <= k < i ==> axes@[k] == pad_interior(dims@, padding@)[k],
            volume(dims@) is Some,
        decreases padding@.len() - i,
    {
        proof {
            lemma_volume_nonnegative(dims@);
        }
        assert(padding@[i as int].0 >= 0);
        let start: i64 = padding[i].0;
        axes.push(SliceAxis { start, limit: start + dims[i], stride: 1 });
        i += 1;
    }
    assert(axes@ =~= pad_interior(dims@, padding@));
    axes
}

/// The gradient of a padding value.
fn border_rule(
    graph: &mut Graph,
    dims: &[i64],
    padding: &Vec<Widths>,
    d: &Tensor,
) -> (r: Result<Tensor, Error>)
    requires
        old(graph).wf(),
        old(graph).owns(*d),
    ensures
        final(graph).extends(*old(graph)),
        final(graph).yields(r, border_gradient(old(graph).key(), dims@, padding@, d.expr())),
{
    proof {
        reveal(border_gradient);
        reveal(Expr::reduce);
    }
    let zero: Tensor = graph.scalar(Scalar::Bits(F32_ZERO))?;
    let one: Tensor = graph.scalar(Scalar::Bits(F32_ONE))?;
    let ones: Tensor = one.broadcast_to(graph, dims)?;
    let interior: Tensor = ones.pad(graph, padding.as_slice(), Scalar::Bits(F32_ZERO))?;
    let zeros: Tensor = zero.broadcast_to(graph, d.shape())?;
    let border: Tensor = interior.select(graph, &zeros, d)?;
    let axes: Vec<usize> = axis_span(0, d.shape().len());
    border.sum(graph, axes.as_slice(), false)
}

/// The gradients of constant padding.
fn pad_rule(
    graph: &mut Graph,
    dims: &[i64],
    padding: &Vec<Widths>,
    d: &Tensor,
) -> (r: Result<Vec<(usize, Tensor)>, Error>)
    requires
        old(graph).wf(),
        old(graph).owns(*d),
        padding_fits(dims@, padding@),
        volume(dims@) is Some,
        d@.dims.len() == dims@.len(),
    ensures
        final(graph).extends(*old(graph)),
        yields_parts(*final(graph), r, pad_gradients(old(graph).key(), dims@, padding@, d.expr())),
{
    proof {
        broadcast use group_parts;
    }
    let axes: Vec<SliceAxis> = interior_of(dims, padding);
    let first: Tensor = d.sliced(graph, axes)?;
    let second: Tensor = border_rule(graph, dims, padding, d)?;
    Ok(double(0, first, 1, second))
}

/// The gradients of a matrix product.
fn matmul_rule(
    graph: &mut Graph,
    a: &Tensor,
    b: &Tensor,
    d: &Tensor,
) -> (r: Result<Vec<(usize, Tensor)>, Error>)
    requires
        old(graph).wf(),
        old(graph).owns(*a),
        old(graph).owns(*b),
        old(graph).owns(*d),
        a@.dims.len() >= 2,
    ensures
        final(graph).extends(*old(graph)),
        yields_parts(*final(graph), r, matmul_gradients(a@, b@, d.expr())),
{
    proof {
        broadcast use group_parts;
        reveal(Expr::matmul);
    }
    let rank: usize = a.shape().len();
    let mut permutation: Vec<usize> = axis_span(0, rank);
    permutation.set(rank - 2, rank - 1);
    permutation.set(rank - 1, rank - 2);
    assert(permutation@ =~= transposing(rank as nat));
    let turned: Tensor = b.transpose(graph, permutation.as_slice())?;
    let first: Tensor = d.matmul(graph, &turned)?;
    let turned: Tensor = a.transpose(graph, permutation.as_slice())?;
    let second: Tensor = turned.matmul(graph, d)?;
    Ok(double(0, first, 1, second))
}

/// The probabilities of attention.
fn attention_probabilities(
    graph: &mut Graph,
    args: &Vec<Tensor>,
    scale: Scalar,
) -> (r: Result<Tensor, Error>)
    requires
        old(graph).wf(),
        old(graph).owns_all(args@),
        args@.len() >= 3,
        args@[0]@.dims.len() >= 2,
    ensures
        final(graph).extends(*old(graph)),
        final(graph).yields(r, attention_weights(values_of(args@), scale)),
{
    proof {
        reveal(attention_weights);
        reveal(Expr::mul_scalar);
        reveal(Expr::matmul);
        reveal(Expr::softmax);
        assert(old(graph).owns(args@[0]) && old(graph).owns(args@[1]));
    }
    let rank: usize = args[0].shape().len();
    let transposed: Tensor = args[1].swap_axes(graph, rank - 2, rank - 1)?;
    let scores: Tensor = args[0].matmul(graph, &transposed)?.mul_scalar(graph, scale)?;
    let masked: Tensor = if args.len() == 4 {
        assert(graph.owns(args@[3]));
        scores.add(graph, &args[3])?
    } else {
        scores
    };
    masked.softmax(graph, rank - 1)
}

/// The gradient of the scores of attention.
fn score_rule(
    graph: &mut Graph,
    weights: &Tensor,
    value: &Tensor,
    d: &Tensor,
) -> (r: Result<Tensor, Error>)
    requires
        old(graph).wf(),
        old(graph).owns(*weights),
        old(graph).owns(*value),
        old(graph).owns(*d),
        value@.dims.len() >= 2,
    ensures
        final(graph).extends(*old(graph)),
        final(graph).yields(r, score_gradient(weights.expr(), value@, d.expr())),
{
    proof {
        reveal(score_gradient);
        reveal(Expr::matmul);
        reveal(Expr::reduce);
    }
    let rank: usize = value.shape().len();
    let axes: Vec<usize> = vec![rank - 1];
    assert(axes@ =~= seq![(rank - 1) as usize]);
    let transposed: Tensor = value.swap_axes(graph, rank - 2, rank - 1)?;
    let outer: Tensor = d.matmul(graph, &transposed)?;
    let level: Tensor = outer.mul(graph, weights)?.sum(graph, axes.as_slice(), true)?;
    let level: Tensor = level.broadcast_to(graph, weights.shape())?;
    let centered: Tensor = outer.sub(graph, &level)?;
    weights.mul(graph, &centered)
}

/// The gradients of attention.
#[verifier::rlimit(40)]
fn attention_rule(
    graph: &mut Graph,
    args: &Vec<Tensor>,
    scale: Scalar,
    d: &Tensor,
) -> (r: Result<Vec<(usize, Tensor)>, Error>)
    requires
        old(graph).wf(),
        old(graph).owns_all(args@),
        old(graph).owns(*d),
        args@.len() == 3 || args@.len() == 4,
        args@[0]@.dims.len() >= 2,
        args@[2]@.dims.len() == args@[0]@.dims.len(),
    ensures
        final(graph).extends(*old(graph)),
        yields_parts(*final(graph), r, attention_gradients(values_of(args@), scale, d.expr())),
{
    let ghost parts = attention_gradients(values_of(args@), scale, d.expr());
    proof {
        reveal(granted);
        reveal(Expr::mul_scalar);
        reveal(Expr::matmul);
        lemma_attention_failed(values_of(args@), scale, d.expr());
        assert(old(graph).owns(args@[0]) && old(graph).owns(args@[1]) && old(graph).owns(args@[2]));
    }
    let rank: usize = args[0].shape().len();
    let weights: Tensor = attention_probabilities(graph, args, scale)?;
    let scores: Tensor = score_rule(graph, &weights, &args[2], d)?;
    let queries: Tensor = scores.matmul(graph, &args[1])?.mul_scalar(graph, scale)?;
    let turned: Tensor = scores.swap_axes(graph, rank - 2, rank - 1)?;
    let keys: Tensor = turned.matmul(graph, &args[0])?.mul_scalar(graph, scale)?;
    let turned: Tensor = weights.swap_axes(graph, rank - 2, rank - 1)?;
    let values: Tensor = turned.matmul(graph, d)?;
    let mut list: Vec<(usize, Tensor)> = vec![(0, queries), (1, keys), (2, values)];
    if args.len() == 4 {
        list.push((3, scores));
    }
    Ok(list)
}

/// The failures of the gradients of attention, in the order in which they
/// are built.
proof fn lemma_attention_failed(args: Seq<Value>, scale: Scalar, d: Expr)
    requires
        args.len() == 3 || args.len() == 4,
    ensures
        forall|e: Error|
            ({
                let parts = attention_gradients(args, scale, d);
                ||| parts[0].1 == Expr::Fails(e)
                ||| (parts[0].1 is Is && parts[1].1 == Expr::Fails(e))
                ||| (parts[0].1 is Is && parts[1].1 is Is && parts[2].1 == Expr::Fails(e))
            }) ==> #[trigger] refused(attention_gradients(args, scale, d), e),
{
    reveal(refused);
    let parts = attention_gradients(args, scale, d);
    assert forall|e: Error|
        ({
            ||| parts[0].1 == Expr::Fails(e)
            ||| (parts[0].1 is Is && parts[1].1 == Expr::Fails(e))
            ||| (parts[0].1 is Is && parts[1].1 is Is && parts[2].1 == Expr::Fails(e))
        }) implies #[trigger] refused(parts, e) by {
        if parts[0].1 is Fails {
            assert(fails_at(parts, 0, e));
        } else if parts[1].1 is Fails {
            assert(fails_at(parts, 1, e));
        } else {
            assert(fails_at(parts, 2, e));
        }
    }
}

/// Zero gradients of both operands.
fn zero_rule(
    graph: &mut Graph,
    a: &Tensor,
    b: &Tensor,
) -> (r: Result<Vec<(usize, Tensor)>, Error>)
    requires
        old(graph).wf(),
        old(graph).owns(*a),
        old(graph).owns(*b),
    ensures
        final(graph).extends(*old(graph)),
        yields_parts(*final(graph), r, zero_gradients(a@, b@)),
{
    proof {
        broadcast use group_parts;
    }
    let zero: Tensor = graph.scalar(Scalar::Bits(F32_ZERO))?;
    let first: Tensor = zero.broadcast_to(graph, a.shape())?;
    let zero: Tensor = graph.scalar(Scalar::Bits(F32_ZERO))?;
    let second: Tensor = zero.broadcast_to(graph, b.shape())?;
    Ok(double(0, first, 1, second))
}

/// How much longer an operand is than a transposed convolution of the output.
fn shortfall_of(
    size: i64,
    output: i64,
    kernel: i64,
    stride: i64,
    widths: Widths,
    dilation: i64,
) -> (r: i64)
    requires
        size >= 0,
        kernel > 0,
        dilation > 0,
        output > 0,
        crate::sound::window_valid(size, stride, widths),
        dilated(kernel, dilation) <= i64::MAX,
        output == window_count(size, dilated(kernel, dilation), stride, widths),
    ensures
        r == shortfall(size, output, kernel, stride, widths, dilation),
        r == size - transposed_extent(output, kernel, stride, widths, dilation, 0),
        0 <= r < stride,
{
    let (low, high): (i64, i64) = widths;
    let room: i64 = size + low + high;
    proof {
        assert(0 <= (kernel - 1) * dilation) by (nonlinear_arith)
            requires
                kernel > 0,
                dilation > 0,
        ;
    }
    let effective: i64 = (kernel - 1) * dilation + 1;
    assert(effective == dilated(kernel, dilation));
    proof {
        let left = room - effective;
        assert(output == left / stride as int + 1);
        assert((output - 1) * stride == left - left % stride as int) by (nonlinear_arith)
            requires
                output - 1 == left / stride as int,
                stride > 0,
        ;
        assert(stride > left % (stride as int) && left % (stride as int) >= 0) by (nonlinear_arith)
            requires
                stride > 0,
        ;
        assert(0 <= (output - 1) * stride) by (nonlinear_arith)
            requires
                output > 0,
                stride > 0,
        ;
    }
    let base: i64 = (output - 1) * stride + effective - low - high;
    size - base
}

/// The gradient of the data of a convolution.
fn conv_data_rule(
    graph: &mut Graph,
    d: &Tensor,
    kernel: &Tensor,
    dims: &[i64],
    options: Conv2dOptions,
) -> (r: Result<Tensor, Error>)
    requires
        old(graph).wf(),
        old(graph).owns(*d),
        old(graph).owns(*kernel),
        conv_fits(dims@, kernel@.dims, options, d@.dims),
        volume(dims@) is Some,
        !d@.dims.contains(0),
    ensures
        final(graph).extends(*old(graph)),
        final(graph).records(*old(graph), r),
        final(graph).yields(r, conv_data_gradient(d.expr(), kernel.expr(), dims@, options)),
{
    let out: &[i64] = d.shape();
    proof {
        lemma_volume_nonnegative(dims@);
        lemma_volume_nonnegative(out@);
        assert(d@.dims[1] != 0 && d@.dims[2] != 0);
        lemma_window_fits(
            dims@[1],
            dilated(kernel@.dims[0], options.dilation.0),
            options.strides.0,
            options.padding.0,
        );
        lemma_window_fits(
            dims@[2],
            dilated(kernel@.dims[1], options.dilation.1),
            options.strides.1,
            options.padding.1,
        );
    }
    let first: i64 = shortfall_of(
        dims[1],
        d.shape()[1],
        kernel.shape()[0],
        options.strides.0,
        options.padding.0,
        options.dilation.0,
    );
    let second: i64 = shortfall_of(
        dims[2],
        d.shape()[2],
        kernel.shape()[1],
        options.strides.1,
        options.padding.1,
        options.dilation.1,
    );
    d.conv_transpose2d(
        graph,
        kernel,
        ConvTranspose2dOptions {
            strides: options.strides,
            padding: options.padding,
            dilation: options.dilation,
            output_padding: (first, second),
        },
    )
}

/// A window count fits the machine integers where the padded extent does.
proof fn lemma_window_fits(size: i64, window: int, stride: i64, widths: Widths)
    requires
        size >= 0,
        window > 0,
        crate::sound::window_valid(size, stride, widths),
    ensures
        0 <= window_count(size, window, stride, widths) <= i64::MAX,
{
    let room = size + widths.0 + widths.1 - window;
    if room >= 0 {
        assert(0 <= room / stride as int <= room) by (nonlinear_arith)
            requires
                room >= 0,
                stride > 0,
        ;
    }
}

/// The gradient of the data of a convolution.
fn data_rule(
    graph: &mut Graph,
    d: &Tensor,
    kernel: &Tensor,
    dims: &[i64],
    options: Conv2dOptions,
) -> (r: Result<Tensor, Error>)
    requires
        old(graph).wf(),
        old(graph).owns(*d),
        old(graph).owns(*kernel),
        conv_fits(dims@, kernel@.dims, options, d@.dims),
        volume(dims@) is Some,
        !d@.dims.contains(0),
    ensures
        final(graph).extends(*old(graph)),
        final(graph).yields(r, data_gradient(d@, kernel@, dims@, options)),
{
    if options.groups == 1 {
        conv_data_rule(graph, d, kernel, dims, options)
    } else {
        graph.node2(Op::Conv2dInputGradient(options), d, kernel, dims)
    }
}

/// The gradients of a convolution with an HWIO kernel.
fn conv_rule(
    graph: &mut Graph,
    x: &Tensor,
    kernel: &Tensor,
    d: &Tensor,
    options: Conv2dOptions,
) -> (r: Result<Vec<(usize, Tensor)>, Error>)
    requires
        old(graph).wf(),
        old(graph).owns(*x),
        old(graph).owns(*kernel),
        old(graph).owns(*d),
        conv_fits(x@.dims, kernel@.dims, options, d@.dims),
    ensures
        final(graph).extends(*old(graph)),
        yields_parts(*final(graph), r, conv_gradients(x@, kernel@, d@, options)),
{
    proof {
        broadcast use group_parts;
    }
    if contains_extent(x.shape(), 0) || contains_extent(d.shape(), 0) {
        return zero_rule(graph, x, kernel);
    }
    let first: Tensor = data_rule(graph, d, kernel, x.shape(), options)?;
    let second: Tensor = graph.node2(Op::Conv2dKernelGradient(options), x, d, kernel.shape())?;
    Ok(double(0, first, 1, second))
}

/// The gradients of a convolution with an OIHW kernel.
fn conv_oihw_rule(
    graph: &mut Graph,
    x: &Tensor,
    kernel: &Tensor,
    d: &Tensor,
    options: Conv2dOptions,
) -> (r: Result<Vec<(usize, Tensor)>, Error>)
    requires
        old(graph).wf(),
        old(graph).owns(*x),
        old(graph).owns(*kernel),
        old(graph).owns(*d),
        kernel@.dims.len() == 4,
        conv_fits(x@.dims, hwio(kernel@.dims), options, d@.dims),
    ensures
        final(graph).extends(*old(graph)),
        yields_parts(*final(graph), r, conv_oihw_gradients(x@, kernel@, d@, options)),
{
    proof {
        broadcast use group_parts;
    }
    if contains_extent(x.shape(), 0) || contains_extent(d.shape(), 0) {
        return zero_rule(graph, x, kernel);
    }
    let order: Vec<usize> = vec![2, 3, 1, 0];
    assert(order@ =~= seq![2, 3, 1, 0]);
    let turned: Tensor = kernel.transpose(graph, order.as_slice())?;
    let shape: Vec<i64> = vec![
        kernel.shape()[2],
        kernel.shape()[3],
        kernel.shape()[1],
        kernel.shape()[0],
    ];
    proof {
        assert(shape@ =~= hwio(kernel@.dims));
        broadcast use group_extents;
        assert(turned@.dims =~= hwio(kernel@.dims)) by {
            assert(turned@.dims == gathered(kernel@.dims, order@));
        }
    }
    let first: Tensor = data_rule(graph, d, &turned, x.shape(), options)?;
    let weights: Tensor = graph.node2(Op::Conv2dKernelGradient(options), x, d, shape.as_slice())?;
    let back: Vec<usize> = vec![3, 2, 0, 1];
    assert(back@ =~= seq![3, 2, 0, 1]);
    let second: Tensor = weights.transpose(graph, back.as_slice())?;
    Ok(double(0, first, 1, second))
}

/// The gradients of a transposed convolution.
fn conv_transpose_rule(
    graph: &mut Graph,
    x: &Tensor,
    kernel: &Tensor,
    d: &Tensor,
    options: ConvTranspose2dOptions,
) -> (r: Result<Vec<(usize, Tensor)>, Error>)
    requires
        old(graph).wf(),
        old(graph).owns(*x),
        old(graph).owns(*kernel),
        old(graph).owns(*d),
        conv_transpose_fits(x@.dims, kernel@.dims, options, d@.dims),
        volume(x@.dims) is Some,
    ensures
        final(graph).extends(*old(graph)),
        yields_parts(*final(graph), r, conv_transpose_gradients(x@, kernel@, d@, options)),
{
    proof {
        broadcast use group_parts;
    }
    if contains_extent(x.shape(), 0) {
        return zero_rule(graph, x, kernel);
    }
    let adjoint: Conv2dOptions = Conv2dOptions {
        strides: options.strides,
        padding: options.padding,
        dilation: options.dilation,
        groups: 1,
    };
    proof {
        lemma_adjoint_fits(x@.dims, kernel@.dims, options, d@.dims);
    }
    let first: Tensor = d.conv2d(graph, kernel, adjoint)?;
    let second: Tensor = graph.node2(Op::Conv2dKernelGradient(adjoint), d, x, kernel.shape())?;
    Ok(double(0, first, 1, second))
}

/// A transposed convolution, convolved back, has the extents of its operand.
proof fn lemma_adjoint_axis(
    size: i64,
    kernel: i64,
    stride: i64,
    widths: Widths,
    dilation: i64,
    extra: i64,
)
    requires
        size > 0,
        kernel > 0,
        crate::sound::transposed_valid(size, kernel, stride, widths, dilation, extra),
    ensures
        ({
            let output = transposed_extent(size, kernel, stride, widths, dilation, extra) as i64;
            &&& crate::sound::window_valid(output, stride, widths)
            &&& window_count(output, dilated(kernel, dilation), stride, widths) == size
        }),
{
    let output = transposed_extent(size, kernel, stride, widths, dilation, extra);
    assert(0 <= (size - 1) * stride) by (nonlinear_arith)
        requires
            size > 0,
            stride > 0,
    ;
    assert(0 <= (kernel - 1) * dilation) by (nonlinear_arith)
        requires
            kernel > 0,
            dilation > 0,
    ;
    let room = (size - 1) * stride + extra;
    assert(room / stride as int == size - 1) by (nonlinear_arith)
        requires
            room == (size - 1) * stride + extra,
            0 <= extra < stride,
    ;
}

/// A transposed convolution fits the convolution that adjoins it.
proof fn lemma_adjoint_fits(
    x: Seq<i64>,
    k: Seq<i64>,
    options: ConvTranspose2dOptions,
    d: Seq<i64>,
)
    requires
        conv_transpose_fits(x, k, options, d),
    ensures
        conv_fits(d, k, adjoint_options(options), x),
{
    lemma_adjoint_axis(
        x[1],
        k[0],
        options.strides.0,
        options.padding.0,
        options.dilation.0,
        options.output_padding.0,
    );
    lemma_adjoint_axis(
        x[2],
        k[1],
        options.strides.1,
        options.padding.1,
        options.dilation.1,
        options.output_padding.1,
    );
    assert(crate::sound::conv_dims(d, (k[0], k[1]), k[3], adjoint_options(options)) =~= x);
}

/// The rows that windows leave over along one axis.
fn rest_of(size: i64, window: i64, stride: i64, widths: Widths) -> (r: i64)
    requires
        size >= 0,
        window > 0,
        crate::sound::window_valid(size, stride, widths),
        window_count(size, window as int, stride, widths) > 0,
    ensures
        r == pool_rest(size, window, stride, widths),
{
    let (low, high): (i64, i64) = widths;
    let room: i64 = size + low + high - window;
    proof {
        assert(stride > room as int % (stride as int)) by (nonlinear_arith)
            requires
                stride > 0,
        ;
    }
    room % stride
}

/// Every cotangent spread over its window.
#[verifier::rlimit(30)]
fn windows_rule(
    graph: &mut Graph,
    d: &Tensor,
    dims: &[i64],
    batch: i64,
    options: Pool2dOptions,
) -> (r: Result<Tensor, Error>)
    requires
        old(graph).wf(),
        old(graph).owns(*d),
        pool_fits(dims@, options, d@.dims),
        volume(dims@) is Some,
        !d@.dims.contains(0),
        batch == dims@[0] * dims@[3],
    ensures
        final(graph).extends(*old(graph)),
        final(graph).yields(r, windows_gradient(d@, dims@, options)),
{
    let out: &[i64] = d.shape();
    proof {
        reveal(windows_gradient);
        lemma_volume_nonnegative(dims@);
        lemma_volume_nonnegative(out@);
        assert(d@.dims[1] != 0 && d@.dims[2] != 0);
        lemma_window_fits(dims@[1], options.window.0 as int, options.strides.0, options.padding.0);
        lemma_window_fits(dims@[2], options.window.1 as int, options.strides.1, options.padding.1);
    }
    let order: Vec<usize> = vec![0, 3, 1, 2];
    let layout: Vec<i64> = vec![batch, d.shape()[1], d.shape()[2], 1];
    let window: Vec<i64> = vec![options.window.0, options.window.1, 1, 1];
    let channels_first: Vec<i64> = vec![dims[0], dims[3], dims[1], dims[2]];
    let back: Vec<usize> = vec![0, 2, 3, 1];
    proof {
        assert(order@ =~= seq![0, 3, 1, 2]);
        assert(layout@ =~= seq![(dims@[0] * dims@[3]) as i64, d@.dims[1], d@.dims[2], 1]);
        assert(window@ =~= seq![options.window.0, options.window.1, 1, 1]);
        assert(channels_first@ =~= seq![dims@[0], dims@[3], dims@[1], dims@[2]]);
        assert(back@ =~= seq![0, 2, 3, 1]);
    }
    let images: Tensor = d.transpose(graph, order.as_slice())?;
    let images: Tensor = images.reshape(graph, layout.as_slice())?;
    let one: Tensor = graph.scalar(Scalar::Bits(F32_ONE))?;
    let kernel: Tensor = one.broadcast_to(graph, window.as_slice())?;
    let first: i64 = rest_of(dims[1], options.window.0, options.strides.0, options.padding.0);
    let second: i64 = rest_of(dims[2], options.window.1, options.strides.1, options.padding.1);
    let spread: Tensor = images.conv_transpose2d(
        graph,
        &kernel,
        ConvTranspose2dOptions {
            strides: options.strides,
            padding: options.padding,
            dilation: (1, 1),
            output_padding: (first, second),
        },
    )?;
    let spread: Tensor = spread.reshape(graph, channels_first.as_slice())?;
    spread.transpose(graph, back.as_slice())
}

/// The gradient of sums over windows.
fn sum_pool_rule(
    graph: &mut Graph,
    d: &Tensor,
    dims: &[i64],
    options: Pool2dOptions,
) -> (r: Result<Tensor, Error>)
    requires
        old(graph).wf(),
        old(graph).owns(*d),
        pool_fits(dims@, options, d@.dims),
        volume(dims@) is Some,
    ensures
        final(graph).extends(*old(graph)),
        final(graph).yields(r, sum_pool_gradient(d@, dims@, options)),
{
    if contains_extent(dims, 0) || contains_extent(d.shape(), 0) {
        let zero: Tensor = graph.scalar(Scalar::Bits(F32_ZERO))?;
        return zero.broadcast_to(graph, dims);
    }
    proof {
        lemma_volume_nonnegative(dims@);
        assert(dims@[0] * dims@[3] >= 0) by (nonlinear_arith)
            requires
                dims@[0] >= 0,
                dims@[3] >= 0,
        ;
    }
    match dims[0].checked_mul(dims[3]) {
        None => Err(err("pool gradient batch/channel size overflow")),
        Some(batch) => windows_rule(graph, d, dims, batch, options),
    }
}

/// The handles from a place on.
fn tail_of(args: &Vec<Tensor>, from: usize) -> (r: Vec<Tensor>)
    requires
        from <= args@.len(),
    ensures
        values_of(r@) == values_of(args@).skip(from as int),
        forall|g: Graph| g.owns_all(args@) ==> #[trigger] g.owns_all(r@),
{
    let mut rest: Vec<Tensor> = Vec::new();
    let mut i: usize = from;
    while i < args.len()
        invariant
            from <= i <= args@.len(),
            rest@.len() == i - from,
            forall|k: int|
                0 <= k < rest@.len() ==> (#[trigger] rest@[k])@ == args@[k + from]@ && rest@[k].id()
                    == args@[k + from].id() && (args@[k + from].wf() ==> rest@[k].wf()),
        decreases args@.len() - i,
    {
        rest.push(args[i].copy());
        i += 1;
    }
    proof {
        assert(values_of(rest@) =~= values_of(args@).skip(from as int));
        assert forall|g: Graph| g.owns_all(args@) implies #[trigger] g.owns_all(rest@) by {
            assert forall|k: int| 0 <= k < rest@.len() implies g.owns(#[trigger] rest@[k]) by {
                assert(g.owns(args@[k + from]));
            }
        }
    }
    rest
}

/// The gradient of a dynamic slice.
fn dynamic_slice_rule(
    graph: &mut Graph,
    source: &Tensor,
    starts: &Vec<Tensor>,
    d: &Tensor,
) -> (r: Result<Tensor, Error>)
    requires
        old(graph).wf(),
        old(graph).owns(*source),
        old(graph).owns(*d),
        old(graph).owns_all(starts@),
    ensures
        final(graph).extends(*old(graph)),
        final(graph).yields(r, dynamic_slice_gradient(source@, values_of(starts@), d.expr())),
{
    let zero: Tensor = graph.scalar(Scalar::Bits(F32_ZERO))?;
    let zeros: Tensor = zero.broadcast_to(graph, source.shape())?;
    zeros.dynamic_update_slice(graph, d, starts.as_slice())
}

/// The gradients of a dynamic update.
fn dynamic_update_rule(
    graph: &mut Graph,
    update: &Tensor,
    starts: &Vec<Tensor>,
    d: &Tensor,
) -> (r: Result<Vec<(usize, Tensor)>, Error>)
    requires
        old(graph).wf(),
        old(graph).owns(*update),
        old(graph).owns(*d),
        old(graph).owns_all(starts@),
    ensures
        final(graph).extends(*old(graph)),
        yields_parts(*final(graph), r, dynamic_update_gradients(update@, values_of(starts@), d.expr())),
{
    proof {
        broadcast use group_parts;
    }
    let zero: Tensor = graph.scalar(Scalar::Bits(F32_ZERO))?;
    let zeros: Tensor = zero.broadcast_to(graph, update.shape())?;
    let first: Tensor = d.dynamic_update_slice(graph, &zeros, starts.as_slice())?;
    let second: Tensor = d.dynamic_slice(graph, starts.as_slice(), update.shape())?;
    Ok(double(0, first, 1, second))
}

/// A single contribution that was recorded, or the failure.
fn lone(operand: usize, r: Result<Tensor, Error>) -> (out: Result<Vec<(usize, Tensor)>, Error>)
    ensures
        forall|g: Graph, e: Expr|
            g.yields(r, e) ==> #[trigger] yields_parts(g, out, one_part(operand as nat, e)),
{
    match r {
        Ok(t) => Ok(single(operand, t)),
        Err(e) => {
            proof {
                broadcast use group_parts;
            }
            Err(e)
        },
    }
}

/// What an operation contributes to the gradients of its operands.
#[verifier::rlimit(60)]
pub(crate) fn contributions(
    graph: &mut Graph,
    op: &Op,
    args: &Vec<Tensor>,
    out: &Tensor,
    d: &Tensor,
) -> (r: Result<Vec<(usize, Tensor)>, Error>)
    requires
        old(graph).wf(),
        old(graph).owns_all(args@),
        old(graph).owns(*out),
        old(graph).owns(*d),
        out@.op == op@,
        out@.args == values_of(args@),
        sound(op@, values_of(args@), out@.dims),
        d@.dims == out@.dims,
        differentiable(op@),
    ensures
        final(graph).extends(*old(graph)),
        yields_parts(*final(graph), r, rule(out@, d@)),
{
    proof {
        reveal(rule);
        assert(forall|k: int| 0 <= k < args@.len() ==> old(graph).owns(#[trigger] args@[k]));
        assert(out@.args.len() == args@.len());
        assert(forall|k: int| 0 <= k < args@.len() ==> #[trigger] out@.args[k] == args@[k]@);
    }
    match op {
        Op::StateWrite { .. } => Ok(single(0, d.copy())),
        Op::Convert { .. } => {
            let source: DType = args[0].dtype();
            if source == DType::F16 || source == DType::BF16 || source == DType::F32 {
                let cast: Result<Tensor, Error> = d.cast(graph, source);
                lone(0, cast)
            } else {
                Ok(nothing())
            }
        },
        Op::WithGradient => Ok(single(1, d.copy())),
        Op::WithElementwiseDerivative => diagonal_rule(graph, args, d),
        Op::Attention { scale } => attention_rule(graph, args, *scale, d),
        Op::Relu => {
            let part: Result<Tensor, Error> = relu_rule(graph, &args[0], d);
            lone(0, part)
        },
        Op::Softplus => match args[0].sigmoid(graph) {
            Err(e) => lone(0, Err(e)),
            Ok(slope) => {
                let part: Result<Tensor, Error> = d.mul(graph, &slope);
                lone(0, part)
            },
        },
        Op::Sigmoid => {
            let part: Result<Tensor, Error> = sigmoid_rule(graph, &args[0], out, d);
            lone(0, part)
        },
        Op::Select => select_rule(graph, &args[0], d),
        Op::Binary(binary) => binary_rule(graph, *binary, &args[0], &args[1], d),
        Op::Unary(unary) => {
            if *unary == Unary::Floor || *unary == Unary::Ceil || *unary == Unary::Round || *unary
                == Unary::RoundTiesEven {
                Ok(nothing())
            } else {
                let part: Result<Tensor, Error> = unary_rule(graph, *unary, &args[0], out, d);
                lone(0, part)
            }
        },
        Op::Reshape => {
            let part: Result<Tensor, Error> = d.reshape(graph, args[0].shape());
            lone(0, part)
        },
        Op::OptimizationBarrier => {
            let part: Result<Tensor, Error> = d.optimization_barrier(graph);
            lone(0, part)
        },
        Op::Slice(axes) => {
            let attribute: Vec<SliceAxis> = crate::op::copied(axes);
            let part: Result<Tensor, Error> = graph.node1(
                Op::SliceGradient(attribute),
                d,
                args[0].shape(),
            );
            lone(0, part)
        },
        Op::SliceGradient(axes) => {
            let part: Result<Tensor, Error> = d.sliced(graph, crate::op::copied(axes));
            lone(0, part)
        },
        Op::Pad(padding) => pad_rule(graph, args[0].shape(), padding, d),
        Op::Concatenate { axis } => {
            proof {
                assert forall|k: int| 0 <= k < args@.len() implies volume(
                    (#[trigger] values_of(args@)[k]).dims,
                ) is Some by {
                    args@[k].lemma_counted();
                }
            }
            concatenate_rule(graph, args, *axis, d)
        },
        Op::Reverse { axes } => {
            let part: Result<Tensor, Error> = d.flip(graph, axes.as_slice());
            lone(0, part)
        },
        Op::Transpose { permutation } => {
            let inverse: Vec<usize> = inverse_permutation(permutation);
            let part: Result<Tensor, Error> = d.transpose(graph, inverse.as_slice());
            lone(0, part)
        },
        Op::Broadcast { axes } => {
            let part: Result<Tensor, Error> = broadcast_rule(graph, axes, args[0].shape(), d);
            lone(0, part)
        },
        Op::Cumsum { axis } => {
            let part: Result<Tensor, Error> = cumsum_rule(graph, *axis, d);
            lone(0, part)
        },
        Op::Reduce { kind, axes } => {
            let part: Result<Tensor, Error> = reduce_rule(graph, *kind, &args[0], out, d, axes);
            lone(0, part)
        },
        Op::Matmul { .. } => matmul_rule(graph, &args[0], &args[1], d),
        Op::SumPool2d(options) => {
            let part: Result<Tensor, Error> = sum_pool_rule(graph, d, args[0].shape(), *options);
            lone(0, part)
        },
        _ => other_contributions(graph, op, args, out, d),
    }
}

/// What convolutions and gathers contribute to the gradients of their operands.
#[verifier::rlimit(40)]
fn other_contributions(
    graph: &mut Graph,
    op: &Op,
    args: &Vec<Tensor>,
    out: &Tensor,
    d: &Tensor,
) -> (r: Result<Vec<(usize, Tensor)>, Error>)
    requires
        old(graph).wf(),
        old(graph).owns_all(args@),
        old(graph).owns(*out),
        old(graph).owns(*d),
        out@.op == op@,
        out@.args == values_of(args@),
        sound(op@, values_of(args@), out@.dims),
        d@.dims == out@.dims,
        match op@ {
        OpModel::Parameter(..)
        | OpModel::StateInput { .. }
        | OpModel::StateRead { .. }
        | OpModel::ConstantF32(..)
        | OpModel::StopGradient
        | OpModel::IndexToFloat
        | OpModel::Bf16ToFloat
        | OpModel::Conv2dInputGradient(..)
        | OpModel::Conv2dKernelGradient(..)
        | OpModel::ConvTranspose2d(..)
        | OpModel::Conv2d(..)
        | OpModel::Conv2dOihw(..)
        | OpModel::DynamicSlice
        | OpModel::DynamicUpdateSlice
        | OpModel::GatherGradient { .. }
        | OpModel::Take { .. }
        | OpModel::TakeAlongAxis { .. } => true,
        _ => false,
    },
    ensures
        final(graph).extends(*old(graph)),
        yields_parts(*final(graph), r, rule(out@, d@)),
{
    proof {
        reveal(rule);
        broadcast use group_parts;
        assert(forall|k: int| 0 <= k < args@.len() ==> old(graph).owns(#[trigger] args@[k]));
        assert(out@.args.len() == args@.len());
        assert(forall|k: int| 0 <= k < args@.len() ==> #[trigger] out@.args[k] == args@[k]@);
    }
    match op {
        Op::Conv2dInputGradient(options) => {
            let first: Tensor = d.conv2d(graph, &args[1], *options)?;
            let second: Tensor = graph.node2(
                Op::Conv2dKernelGradient(*options),
                d,
                &args[0],
                args[1].shape(),
            )?;
            Ok(double(0, first, 1, second))
        },
        Op::Conv2dKernelGradient(options) => {
            let first: Tensor = graph.node2(
                Op::Conv2dInputGradient(*options),
                &args[1],
                d,
                args[0].shape(),
            )?;
            let second: Tensor = args[0].conv2d(graph, d, *options)?;
            Ok(double(0, first, 1, second))
        },
        Op::ConvTranspose2d(options) => {
            let dims: &[i64] = args[0].shape();
            conv_transpose_rule(graph, &args[0], &args[1], d, *options)
        },
        Op::Conv2d(options) => conv_rule(graph, &args[0], &args[1], d, *options),
        Op::Conv2dOihw(options) => conv_oihw_rule(graph, &args[0], &args[1], d, *options),
        Op::DynamicSlice => {
            let starts: Vec<Tensor> = tail_of(args, 1);
            let part: Result<Tensor, Error> = dynamic_slice_rule(graph, &args[0], &starts, d);
            lone(0, part)
        },
        Op::DynamicUpdateSlice => {
            let starts: Vec<Tensor> = tail_of(args, 2);
            dynamic_update_rule(graph, &args[1], &starts, d)
        },
        Op::GatherGradient { axis, batched } => {
            let part: Result<Tensor, Error> = if *batched {
                d.take_along_axis(graph, &args[1], *axis)
            } else {
                d.take(graph, &args[1], *axis)
            };
            lone(0, part)
        },
        Op::Take { axis } => {
            let part: Result<Tensor, Error> = graph.node2(
                Op::GatherGradient { axis: *axis, batched: false },
                d,
                &args[1],
                args[0].shape(),
            );
            lone(0, part)
        },
        Op::TakeAlongAxis { axis } => {
            let part: Result<Tensor, Error> = graph.node2(
                Op::GatherGradient { axis: *axis, batched: true },
                d,
                &args[1],
                args[0].shape(),
            );
            lone(0, part)
        },
        _ => Ok(nothing()),
    }
}

/// Whether a contribution goes to an operand that gradients pass to, with the
/// operand's extents.
pub open spec fn fits_operand(v: Value, part: (nat, Expr)) -> bool {
    &&& part.0 < v.args.len()
    &&& follows(v.op, part.0 as int)
    &&& part.1 matches Expr::Is(y) ==> y.graph == v.graph && y.dims == v.args[part.0 as int].dims
}

/// Whether every contribution fits its operand.
pub open spec fn all_fit(v: Value, parts: Parts) -> bool {
    forall|k: int| 0 <= k < parts.len() ==> fits_operand(v, #[trigger] parts[k])
}

/// The operands belong to the graph of the operation, and all extents have an
/// element count.
pub open spec fn consistent(v: Value) -> bool {
    &&& sound(v.op, v.args, v.dims)
    &&& volume(v.dims) is Some
    &&& v.dims.len() <= usize::MAX
    &&& forall|k: int|
        0 <= k < v.args.len() ==> (#[trigger] v.args[k]).graph == v.graph && volume(v.args[k].dims)
            is Some && v.args[k].dims.len() <= usize::MAX
}

/// The product of matrices of one batch has the extents that fit.
pub proof fn lemma_matmul_extents(a: Expr, b: Expr, dims: Seq<i64>)
    requires
        a is Is && b is Is ==> matmul_fits(a->Is_0.dims, b->Is_0.dims, dims),
    ensures
        a.matmul(b) matches Expr::Is(z) ==> a is Is && b is Is && z.graph == a->Is_0.graph && z.dims
            == dims,
{
    reveal(Expr::matmul);
    reveal(applied);
    if let (Expr::Is(x), Expr::Is(y)) = (a, b) {
        let batch = x.dims.take(x.dims.len() - 2);
        assert(crate::matmul::broadcast_shape(batch, batch) =~= batch);
        assert(batch + seq![x.dims[x.dims.len() - 2], y.dims[y.dims.len() - 1]] =~= dims);
    }
}

/// A matrix shape with the last two extents exchanged.
pub open spec fn flipped(dims: Seq<i64>) -> Seq<i64> {
    let rank = dims.len() as int;
    dims.update(rank - 2, dims[rank - 1]).update(rank - 1, dims[rank - 2])
}

/// Exchanging the last two axes exchanges their extents.
pub(crate) proof fn lemma_transposing(x: Expr, rank: nat)
    requires
        2 <= rank <= usize::MAX,
        x matches Expr::Is(v) ==> v.dims.len() == rank,
    ensures
        x.transpose(transposing(rank)) matches Expr::Is(y) ==> x is Is && y.graph == x->Is_0.graph
            && y.dims == flipped(x->Is_0.dims),
        x.swap_axes((rank - 2) as usize, (rank - 1) as usize) matches Expr::Is(y) ==> x is Is
            && y.graph == x->Is_0.graph && y.dims == flipped(x->Is_0.dims),
{
    broadcast use group_extents;
    if let Expr::Is(v) = x {
        assert(gathered(v.dims, transposing(rank)) =~= flipped(v.dims));
        assert(swapped(rank, (rank - 2) as usize, (rank - 1) as usize) == transposing(rank));
    }
}

/// The gradients of a matrix product have the extents of its factors.
proof fn lemma_matmul_fit(v: Value, dy: Value)
    requires
        consistent(v),
        v.op is Matmul,
        dy.dims == v.dims,
        dy.graph == v.graph,
    ensures
        all_fit(v, matmul_gradients(v.args[0], v.args[1], Expr::Is(dy))),
{
    let a = v.args[0];
    let b = v.args[1];
    let d = Expr::Is(dy);
    let rank = v.dims.len() as int;
    let turned_b = Expr::Is(b).transpose(transposing(rank as nat));
    let turned_a = Expr::Is(a).transpose(transposing(rank as nat));
    lemma_transposing(Expr::Is(a), rank as nat);
    lemma_transposing(Expr::Is(b), rank as nat);
    if let Expr::Is(t) = turned_b {
        assert(t.dims.take(rank - 2) =~= b.dims.take(rank - 2));
        assert(matmul_fits(dy.dims, t.dims, a.dims));
    }
    if let Expr::Is(t) = turned_a {
        assert(t.dims.take(rank - 2) =~= a.dims.take(rank - 2));
        assert(matmul_fits(t.dims, dy.dims, b.dims));
    }
    lemma_matmul_extents(d, turned_b, a.dims);
    lemma_matmul_extents(turned_a, d, b.dims);
}

/// The probabilities and the score gradients of attention have the extents of
/// the scores.
proof fn lemma_attention_scores(v: Value, dy: Value, scale: Scalar)
    requires
        consistent(v),
        attention_fits(v.args, v.dims),
        dy.dims == v.dims,
        dy.graph == v.graph,
    ensures
        ({
            let rank = v.dims.len() as int;
            let scores = v.dims.update(rank - 1, v.args[1].dims[rank - 2]);
            let weights = attention_weights(v.args, scale);
            &&& weights matches Expr::Is(w) ==> w.graph == v.graph && w.dims == scores
            &&& weights is Is ==> (score_gradient(weights, v.args[2], Expr::Is(dy)) matches Expr::Is(
                s,
            ) ==> s.graph == v.graph && s.dims == scores)
        }),
{
    reveal(attention_weights);
    reveal(score_gradient);
    broadcast use group_extents;
    let rank = v.dims.len() as int;
    let scores = v.dims.update(rank - 1, v.args[1].dims[rank - 2]);
    let keys = Expr::Is(v.args[1]).swap_axes((rank - 2) as usize, (rank - 1) as usize);
    let values = Expr::Is(v.args[2]).swap_axes((rank - 2) as usize, (rank - 1) as usize);
    assert(v.args[0].dims.len() == rank);
    assert(v.args[1].dims.len() == rank);
    assert(v.args[2].dims.len() == rank);
    assert(v.args[0].dims.take(rank - 2) == v.dims.take(rank - 2));
    assert(v.args[1].dims.take(rank - 2) == v.dims.take(rank - 2));
    assert(v.args[2].dims.take(rank - 2) == v.dims.take(rank - 2));
    assert(scores.take(rank - 2) =~= v.dims.take(rank - 2));
    lemma_transposing(Expr::Is(v.args[1]), rank as nat);
    lemma_transposing(Expr::Is(v.args[2]), rank as nat);
    if let Expr::Is(t) = keys {
        assert(t.dims.take(rank - 2) =~= v.args[1].dims.take(rank - 2));
        assert(matmul_fits(v.args[0].dims, t.dims, scores));
    }
    if let Expr::Is(t) = values {
        assert(t.dims.take(rank - 2) =~= v.args[2].dims.take(rank - 2));
        assert(matmul_fits(dy.dims, t.dims, scores));
    }
    lemma_matmul_extents(Expr::Is(v.args[0]), keys, scores);
    lemma_matmul_extents(Expr::Is(dy), values, scores);
}

/// The gradients of attention have the extents of its operands.
proof fn lemma_attention_fit(v: Value, dy: Value, scale: Scalar)
    requires
        consistent(v),
        v.op == (OpModel::Attention { scale }),
        dy.dims == v.dims,
        dy.graph == v.graph,
    ensures
        all_fit(v, attention_gradients(v.args, scale, Expr::Is(dy))),
{
    lemma_attention_scores(v, dy, scale);
    broadcast use group_extents;
    let d = Expr::Is(dy);
    let rank = v.dims.len() as int;
    let shape = v.dims.update(rank - 1, v.args[1].dims[rank - 2]);
    let weights = attention_weights(v.args, scale);
    let scores = score_gradient(weights, v.args[2], d).given(weights);
    assert(v.args[0].dims.len() == rank && v.args[0].dims.take(rank - 2) == v.dims.take(rank - 2));
    assert(v.args[1].dims.len() == rank && v.args[1].dims.take(rank - 2) == v.dims.take(rank - 2));
    assert(v.args[2].dims.len() == rank && v.args[2].dims.take(rank - 2) == v.dims.take(rank - 2));
    assert(shape.take(rank - 2) =~= v.dims.take(rank - 2));
    if scores is Is {
        assert(matmul_fits(shape, v.args[1].dims, v.args[0].dims));
    }
    lemma_matmul_extents(scores, Expr::Is(v.args[1]), v.args[0].dims);
    lemma_transposing(scores, rank as nat);
    lemma_transposing(weights, rank as nat);
    let turned = scores.swap_axes((rank - 2) as usize, (rank - 1) as usize);
    if let Expr::Is(t) = turned {
        assert(t.dims.take(rank - 2) =~= shape.take(rank - 2));
        assert(matmul_fits(t.dims, v.args[0].dims, v.args[1].dims));
    }
    lemma_matmul_extents(turned, Expr::Is(v.args[0]), v.args[1].dims);
    let turned = weights.swap_axes((rank - 2) as usize, (rank - 1) as usize);
    if let Expr::Is(t) = turned {
        assert(t.dims.take(rank - 2) =~= shape.take(rank - 2));
        assert(matmul_fits(t.dims, dy.dims, v.args[2].dims));
    }
    lemma_matmul_extents(turned, d, v.args[2].dims);
    if v.args.len() == 4 {
        assert(v.args[3].dims.len() == rank);
        assert(v.args[3].dims.take(rank - 2) == v.dims.take(rank - 2));
        assert(v.args[3].dims =~= shape) by {
            assert forall|i: int| 0 <= i < rank - 2 implies v.args[3].dims[i] == shape[i] by {
                assert(v.args[3].dims.take(rank - 2)[i] == v.dims.take(rank - 2)[i]);
            }
        }
    }
}

/// Summing over every axis leaves no extents.
proof fn lemma_all_reduced(dims: Seq<i64>, rank: nat)
    requires
        dims.len() <= rank <= usize::MAX,
    ensures
        crate::shape::kept(dims, span(0, rank)) == Seq::<i64>::empty(),
    decreases dims.len(),
{
    if dims.len() > 0 {
        lemma_all_reduced(dims.drop_last(), rank);
        assert(span(0, rank)[dims.len() - 1] == (dims.len() - 1) as usize);
        assert(span(0, rank).contains((dims.len() - 1) as usize));
    }
}

/// The gradients of constant padding have the extents of its operands.
proof fn lemma_pad_fit(v: Value, dy: Value, padding: Seq<Widths>)
    requires
        consistent(v),
        v.op == OpModel::Pad(padding),
        dy.dims == v.dims,
        dy.graph == v.graph,
    ensures
        all_fit(v, pad_gradients(v.graph, v.args[0].dims, padding, Expr::Is(dy))),
{
    broadcast use group_extents;
    reveal(border_gradient);
    reveal(applied);
    let dims = v.args[0].dims;
    let axes = pad_interior(dims, padding);
    lemma_volume_nonnegative(dims);
    assert forall|i: int| 0 <= i < dims.len() implies #[trigger] slice_dims(axes)[i] == dims[i] by {
        assert(padding[i].0 >= 0);
        assert(axes[i].stride == 1);
        assert(axes[i].limit == padding[i].0 + dims[i]);
        assert(crate::sound::slice_extent(axes[i]) == axes[i].limit - axes[i].start);
    }
    assert(slice_dims(axes) =~= dims);
    lemma_all_reduced(v.dims, v.dims.len());
    assert(v.args[1].dims =~= Seq::empty());
    if v.dims.len() == 0 {
        assert(v.dims =~= Seq::empty());
        assert(span(0, 0) =~= Seq::empty());
    }
    let zero = scalar(v.graph, Scalar::Bits(F32_ZERO));
    let one = scalar(v.graph, Scalar::Bits(F32_ONE)).given(zero);
    let interior = one.broadcast_to(dims).pad(padding, Scalar::Bits(F32_ZERO));
    assert(interior matches Expr::Is(t) ==> t.graph == v.graph);
    let border = interior.select(zero.broadcast_to(v.dims), Expr::Is(dy));
    assert(border matches Expr::Is(t) ==> t.graph == v.graph && t.dims == v.dims);
    let total = border.sum(span(0, v.dims.len()), false);
    assert(total matches Expr::Is(t) ==> t.graph == v.graph && t.dims == v.args[1].dims);
    let first = Expr::Is(dy).sliced(axes);
    assert(first matches Expr::Is(t) ==> t.graph == v.graph && t.dims == dims);
}

/// Inverting a permutation restores the extents.
proof fn lemma_inverse_gathers(dims: Seq<i64>, permutation: Seq<usize>)
    requires
        is_permutation(permutation, dims.len()),
        dims.len() <= usize::MAX,
    ensures
        gathered(gathered(dims, permutation), inverse_of(permutation)) == dims,
{
    lemma_permutation_onto(permutation);
    let inverse = inverse_of(permutation);
    assert forall|q: int| 0 <= q < dims.len() implies gathered(
        gathered(dims, permutation),
        inverse,
    )[q] == dims[q] by {
        assert(permutation.contains(q as usize));
        let k = permutation.index_of(q as usize);
        assert(permutation[k] == q as usize);
        assert(inverse[q] == k);
    }
    assert(gathered(gathered(dims, permutation), inverse) =~= dims);
}

/// The gradients of a convolution have the extents of its operands.
proof fn lemma_data_fit(d: Value, kernel: Value, dims: Seq<i64>, options: Conv2dOptions)
    requires
        conv_fits(dims, kernel.dims, options, d.dims),
        d.graph == kernel.graph,
        volume(dims) is Some,
        volume(d.dims) is Some,
        !d.dims.contains(0),
    ensures
        data_gradient(d, kernel, dims, options) matches Expr::Is(y) ==> y.graph == d.graph && y.dims
            == dims,
{
    reveal(applied);
    reveal(crate::graph::typed);
    lemma_volume_nonnegative(dims);
    lemma_volume_nonnegative(d.dims);
    assert(d.dims[1] != 0 && d.dims[2] != 0);
    lemma_shortfall(
        dims[1],
        d.dims[1],
        kernel.dims[0],
        options.strides.0,
        options.padding.0,
        options.dilation.0,
    );
    lemma_shortfall(
        dims[2],
        d.dims[2],
        kernel.dims[1],
        options.strides.1,
        options.padding.1,
        options.dilation.1,
    );
    if options.groups == 1 {
        if let Expr::Is(y) = data_gradient(d, kernel, dims, options) {
            assert(y.dims =~= dims);
        }
    }
}

/// A shortfall makes up the operand's extent, and stays below the stride.
proof fn lemma_shortfall(
    size: i64,
    output: i64,
    kernel: i64,
    stride: i64,
    widths: Widths,
    dilation: i64,
)
    requires
        size >= 0,
        kernel > 0,
        dilation > 0,
        output > 0,
        crate::sound::window_valid(size, stride, widths),
        dilated(kernel, dilation) <= i64::MAX,
        output == window_count(size, dilated(kernel, dilation), stride, widths) as i64,
    ensures
        ({
            let extra = shortfall(size, output, kernel, stride, widths, dilation);
            &&& 0 <= extra < stride
            &&& transposed_extent(output, kernel, stride, widths, dilation, extra) == size
        }),
{
    assert(0 <= (kernel - 1) * dilation) by (nonlinear_arith)
        requires
            kernel > 0,
            dilation > 0,
    ;
    lemma_window_fits(size, dilated(kernel, dilation), stride, widths);
    let left = size + widths.0 + widths.1 - dilated(kernel, dilation);
    assert(output == left / stride as int + 1);
    assert((output - 1) * stride == left - left % stride as int) by (nonlinear_arith)
        requires
            output - 1 == left / stride as int,
            stride > 0,
    ;
    assert(stride > left % (stride as int) && left % (stride as int) >= 0) by (nonlinear_arith)
        requires
            stride > 0,
    ;
}

/// The gradients of a convolution have the extents of its operands.
proof fn lemma_conv_fit(v: Value, dy: Value, options: Conv2dOptions)
    requires
        consistent(v),
        dy.dims == v.dims,
        dy.graph == v.graph,
        v.op == OpModel::Conv2d(options),
    ensures
        all_fit(v, conv_gradients(v.args[0], v.args[1], dy, options)),
{
    reveal(applied);
    let x = v.args[0];
    if !x.dims.contains(0) && !dy.dims.contains(0) {
        lemma_data_fit(dy, v.args[1], x.dims, options);
    }
}

/// The gradients of a convolution with an OIHW kernel have the extents of its
/// operands.
proof fn lemma_conv_oihw_fit(v: Value, dy: Value, options: Conv2dOptions)
    requires
        consistent(v),
        dy.dims == v.dims,
        dy.graph == v.graph,
        v.op == OpModel::Conv2dOihw(options),
    ensures
        all_fit(v, conv_oihw_gradients(v.args[0], v.args[1], dy, options)),
{
    reveal(applied);
    let x = v.args[0];
    let k = v.args[1];
    if !x.dims.contains(0) && !dy.dims.contains(0) {
        if let Expr::Is(turned) = Expr::Is(k).transpose(seq![2, 3, 1, 0]) {
            assert(gathered(k.dims, seq![2, 3, 1, 0]) =~= hwio(k.dims));
            lemma_data_fit(dy, turned, x.dims, options);
            assert(gathered(hwio(k.dims), seq![3, 2, 0, 1]) =~= k.dims);
        }
    }
}

/// What a convolution yields has the extents that fit.
proof fn lemma_conv_extents(x: Value, k: Value, options: Conv2dOptions, dims: Seq<i64>)
    requires
        conv_fits(x.dims, k.dims, options, dims),
        x.graph == k.graph,
    ensures
        Expr::Is(x).conv2d(Expr::Is(k), options) matches Expr::Is(y) ==> y.graph == x.graph
            && y.dims == dims,
{
    reveal(crate::graph::typed);
    if let Expr::Is(y) = Expr::Is(x).conv2d(Expr::Is(k), options) {
        assert(y.dims =~= dims);
    }
}

/// The gradients of a transposed convolution have the extents of its operands.
proof fn lemma_conv_transpose_fit(v: Value, dy: Value, options: ConvTranspose2dOptions)
    requires
        consistent(v),
        dy.dims == v.dims,
        dy.graph == v.graph,
        v.op == OpModel::ConvTranspose2d(options),
    ensures
        all_fit(v, conv_transpose_gradients(v.args[0], v.args[1], dy, options)),
{
    reveal(applied);
    lemma_adjoint_fits(v.args[0].dims, v.args[1].dims, options, v.dims);
    lemma_conv_extents(dy, v.args[1], adjoint_options(options), v.args[0].dims);
}

/// The gradient of sums over windows has the extents of the data.
proof fn lemma_pool_fit(d: Value, dims: Seq<i64>, options: Pool2dOptions)
    requires
        pool_fits(dims, options, d.dims),
    ensures
        sum_pool_gradient(d, dims, options) matches Expr::Is(y) ==> y.graph == d.graph && y.dims
            == dims,
{
    reveal(applied);
    reveal(crate::graph::typed);
    reveal(windows_gradient);
    broadcast use group_extents;
    let first = seq![dims[0], dims[3], dims[1], dims[2]];
    assert(gathered(first, seq![0, 2, 3, 1]) =~= dims);
}

/// The gradients of elementwise and reshaping operations have the extents of
/// their operands.
proof fn lemma_simple_fit(v: Value, dy: Value, part: Expr)
    requires
        consistent(v),
        dy.dims == v.dims,
        dy.graph == v.graph,
        v.args.len() >= 1,
        follows(v.op, 0),
        part matches Expr::Is(y) ==> y.graph == v.graph && y.dims == v.args[0].dims,
    ensures
        all_fit(v, one_part(0, part)),
{
}

/// The gradient of an elementwise operation has the operand's extents.
proof fn lemma_unary_extents(op: Unary, x: Value, y: Value, dy: Value)
    requires
        y.dims == x.dims,
        dy.dims == x.dims,
        y.graph == x.graph,
        dy.graph == x.graph,
    ensures
        unary_gradient(op, Expr::Is(x), Expr::Is(y), Expr::Is(dy)) matches Expr::Is(z) ==> z.graph
            == x.graph && z.dims == x.dims,
{
    reveal(unary_gradient);
    broadcast use group_extents;
}

/// The gradients of an elementwise operation have the operands' extents.
proof fn lemma_binary_fit(v: Value, dy: Value, op: Binary)
    requires
        consistent(v),
        dy.dims == v.dims,
        dy.graph == v.graph,
        v.op == OpModel::Binary(op),
    ensures
        all_fit(v, binary_gradients(op, Expr::Is(v.args[0]), Expr::Is(v.args[1]), Expr::Is(dy))),
{
    reveal(extremum_gradients);
    broadcast use group_extents;
}

/// The gradient of a reduction has the operand's extents.
proof fn lemma_reduce_extents(
    kind: Reduction,
    x: Value,
    y: Value,
    dy: Value,
    axes: Seq<usize>,
)
    requires
        y.graph == x.graph,
        dy.graph == x.graph,
    ensures
        reduce_gradient(kind, Expr::Is(x), Expr::Is(y), Expr::Is(dy), x.dims, axes) matches Expr::Is(
            z,
        ) ==> z.graph == x.graph && z.dims == x.dims,
{
    reveal(spread);
    reveal(tally);
    reveal(maximum_gradient);
    broadcast use group_extents;
}

/// The gradients of the branches of a choice have their extents.
proof fn lemma_select_fit(v: Value, dy: Value)
    requires
        consistent(v),
        dy.dims == v.dims,
        dy.graph == v.graph,
        v.op is Select,
    ensures
        all_fit(v, select_gradients(Expr::Is(v.args[0]), Expr::Is(dy))),
{
    broadcast use group_extents;
}

/// The gradients of a dynamic update have the operands' extents.
proof fn lemma_update_fit(v: Value, dy: Value)
    requires
        consistent(v),
        dy.dims == v.dims,
        dy.graph == v.graph,
        v.op is DynamicUpdateSlice,
    ensures
        all_fit(v, dynamic_update_gradients(v.args[1], v.args.skip(2), Expr::Is(dy))),
{
    reveal(applied);
}

/// Every contribution goes to an operand that gradients pass to, and has that
/// operand's extents.
#[verifier::rlimit(40)]
pub proof fn contributions_have_operand_extents(v: Value, dy: Value)
    requires
        consistent(v),
        dy.dims == v.dims,
        dy.graph == v.graph,
    ensures
        all_fit(v, rule(v, dy)),
{
    let d = Expr::Is(dy);
    let y = Expr::Is(v);
    let x = Expr::Is(v.args[0]);
    match v.op {
        OpModel::Conv2d(options) => {
            assert(rule(v, dy) == conv_gradients(v.args[0], v.args[1], dy, options)) by {
                reveal(rule);
            }
            lemma_conv_fit(v, dy, options);
        },
        OpModel::Conv2dOihw(options) => {
            assert(rule(v, dy) == conv_oihw_gradients(v.args[0], v.args[1], dy, options)) by {
                reveal(rule);
            }
            lemma_conv_oihw_fit(v, dy, options);
        },
        OpModel::ConvTranspose2d(options) => {
            assert(rule(v, dy) == conv_transpose_gradients(v.args[0], v.args[1], dy, options)) by {
                reveal(rule);
            }
            lemma_conv_transpose_fit(v, dy, options);
        },
        OpModel::Conv2dInputGradient(options) => {
            let weights = applied(
                dy.graph,
                OpModel::Conv2dKernelGradient(options),
                seq![dy, v.args[0]],
                v.args[1].dims,
            );
            assert(rule(v, dy) == two_parts(
                0,
                d.conv2d(Expr::Is(v.args[1]), options),
                1,
                weights,
            )) by {
                reveal(rule);
            }
            lemma_conv_extents(dy, v.args[1], options, v.args[0].dims);
            assert(weights matches Expr::Is(w) ==> w.graph == v.graph && w.dims == v.args[1].dims) by {
                reveal(applied);
            }
        },
        OpModel::Conv2dKernelGradient(options) => {
            let data = applied(
                dy.graph,
                OpModel::Conv2dInputGradient(options),
                seq![v.args[1], dy],
                v.args[0].dims,
            );
            assert(rule(v, dy) == two_parts(0, data, 1, x.conv2d(d, options))) by {
                reveal(rule);
            }
            lemma_conv_extents(v.args[0], dy, options, v.args[1].dims);
            assert(data matches Expr::Is(w) ==> w.graph == v.graph && w.dims == v.args[0].dims) by {
                reveal(applied);
            }
        },
        OpModel::Attention { scale } => {
            assert(rule(v, dy) == attention_gradients(v.args, scale, d)) by {
                reveal(rule);
            }
            lemma_attention_fit(v, dy, scale);
        },
        OpModel::Matmul { .. } => {
            assert(rule(v, dy) == matmul_gradients(v.args[0], v.args[1], d)) by {
                reveal(rule);
            }
            lemma_matmul_fit(v, dy);
        },
        OpModel::Pad(padding) => {
            assert(rule(v, dy) == pad_gradients(v.graph, v.args[0].dims, padding, d)) by {
                reveal(rule);
            }
            lemma_pad_fit(v, dy, padding);
        },
        OpModel::SumPool2d(options) => {
            let part = sum_pool_gradient(dy, v.args[0].dims, options);
            assert(rule(v, dy) == one_part(0, part)) by {
                reveal(rule);
            }
            lemma_pool_fit(dy, v.args[0].dims, options);
            lemma_simple_fit(v, dy, part);
        },
        OpModel::Transpose { permutation } => {
            let part = d.transpose(inverse_of(permutation));
            assert(rule(v, dy) == one_part(0, part)) by {
                reveal(rule);
            }
            lemma_inverse_gathers(v.args[0].dims, permutation);
            crate::facts::transpose_lands(d, inverse_of(permutation));
            lemma_simple_fit(v, dy, part);
        },
        OpModel::Reduce { kind, axes } => {
            let part = reduce_gradient(kind, x, y, d, v.args[0].dims, axes);
            assert(rule(v, dy) == one_part(0, part)) by {
                reveal(rule);
            }
            lemma_reduce_extents(kind, v.args[0], v, dy, axes);
            lemma_simple_fit(v, dy, part);
        },
        OpModel::Concatenate { axis } => {
            let parts = concatenate_gradients(v.args, axis, d);
            assert(rule(v, dy) == parts) by {
                reveal(rule);
            }
            assert forall|k: int| 0 <= k < parts.len() implies fits_operand(v, #[trigger] parts[k]) by {
                crate::facts::narrow_lands(
                    d,
                    axis,
                    axis_total(v.args.take(k), axis) as i64,
                    v.args[k].dims[axis as int],
                );
                assert(agree_except(v.args[k].dims, v.dims, axis));
                assert(v.dims.update(axis as int, v.args[k].dims[axis as int]) =~= v.args[k].dims);
            }
        },
        OpModel::WithElementwiseDerivative => {
            let parts = diagonal_gradients(v.args, d);
            assert(rule(v, dy) == parts) by {
                reveal(rule);
            }
            assert forall|k: int| 0 <= k < parts.len() implies fits_operand(v, #[trigger] parts[k]) by {
                crate::facts::binary_keeps(d, Expr::Is(v.args[2 * k + 2]), Binary::Mul);
                assert(v.args[2 * k + 1].dims == v.dims);
            }
        },
        OpModel::Unary(op) => {
            if is_rounding(op) {
                assert(rule(v, dy) == no_parts()) by {
                    reveal(rule);
                }
            } else {
                let part = unary_gradient(op, x, y, d);
                assert(rule(v, dy) == one_part(0, part)) by {
                    reveal(rule);
                }
                lemma_unary_extents(op, v.args[0], v, dy);
                lemma_simple_fit(v, dy, part);
            }
        },
        OpModel::Binary(op) => {
            assert(rule(v, dy) == binary_gradients(op, x, Expr::Is(v.args[1]), d)) by {
                reveal(rule);
            }
            lemma_binary_fit(v, dy, op);
        },
        OpModel::Select => {
            assert(rule(v, dy) == select_gradients(x, d)) by {
                reveal(rule);
            }
            lemma_select_fit(v, dy);
        },
        OpModel::DynamicUpdateSlice => {
            let parts = dynamic_update_gradients(v.args[1], v.args.skip(2), d);
            assert(rule(v, dy) == parts) by {
                reveal(rule);
            }
            lemma_update_fit(v, dy);
        },
        _ => {
            lemma_remaining_fit(v, dy);
        },
    }
}

/// The gradients of the remaining operations have their operands' extents.
proof fn lemma_remaining_fit(v: Value, dy: Value)
    requires
        consistent(v),
        dy.dims == v.dims,
        dy.graph == v.graph,
        match v.op {
            OpModel::Conv2d(..)
            | OpModel::Conv2dOihw(..)
            | OpModel::ConvTranspose2d(..)
            | OpModel::Conv2dInputGradient(..)
            | OpModel::Conv2dKernelGradient(..)
            | OpModel::Attention { .. }
            | OpModel::Matmul { .. }
            | OpModel::Pad(..)
            | OpModel::SumPool2d(..)
            | OpModel::Transpose { .. }
            | OpModel::Reduce { .. }
            | OpModel::Concatenate { .. }
            | OpModel::WithElementwiseDerivative
            | OpModel::Unary(..)
            | OpModel::Binary(..)
            | OpModel::Select
            | OpModel::DynamicUpdateSlice => false,
            _ => true,
        },
    ensures
        all_fit(v, rule(v, dy)),
{
    let d = Expr::Is(dy);
    let y = Expr::Is(v);
    let x = Expr::Is(v.args[0]);
    match v.op {
        OpModel::Relu => {
            assert(rule(v, dy) == one_part(0, relu_gradient(x, d))) by {
                reveal(rule);
            }
            broadcast use group_extents;
        },
        OpModel::Softplus => {
            assert(rule(v, dy) == one_part(0, d.mul(x.sigmoid()))) by {
                reveal(rule);
            }
            broadcast use crate::facts::binary_keeps;
        },
        OpModel::Sigmoid => {
            assert(rule(v, dy) == one_part(0, sigmoid_gradient(x, y, d))) by {
                reveal(rule);
            }
            broadcast use crate::facts::binary_keeps;
        },
        OpModel::Reshape => {
            assert(rule(v, dy) == one_part(0, d.reshape(v.args[0].dims))) by {
                reveal(rule);
            }
            broadcast use crate::facts::reshape_lands;
        },
        OpModel::OptimizationBarrier => {
            assert(rule(v, dy) == one_part(0, d.optimization_barrier())) by {
                reveal(rule);
            }
            broadcast use crate::facts::same_shaped_keeps;
        },
        OpModel::Broadcast { axes } => {
            let part = broadcast_gradient(axes, v.args[0].dims, v.dims, d);
            assert(rule(v, dy) == one_part(0, part)) by {
                reveal(rule);
            }
            broadcast use group_extents;
        },
        OpModel::Cumsum { axis } => {
            assert(rule(v, dy) == one_part(0, cumsum_gradient(axis, d))) by {
                reveal(rule);
            }
            broadcast use group_extents;
        },
        OpModel::Reverse { axes } => {
            assert(rule(v, dy) == one_part(0, d.flip(axes))) by {
                reveal(rule);
            }
            broadcast use crate::facts::flip_keeps;
        },
        OpModel::Convert { .. } => {
            reveal(rule);
            broadcast use crate::facts::cast_keeps;
        },
        OpModel::Slice(axes) => {
            let part = applied(dy.graph, OpModel::SliceGradient(axes), seq![dy], v.args[0].dims);
            assert(rule(v, dy) == one_part(0, part)) by {
                reveal(rule);
            }
            reveal(applied);
        },
        OpModel::SliceGradient(axes) => {
            assert(rule(v, dy) == one_part(0, d.sliced(axes))) by {
                reveal(rule);
            }
            reveal(applied);
        },
        OpModel::DynamicSlice => {
            let part = dynamic_slice_gradient(v.args[0], v.args.skip(1), d);
            assert(rule(v, dy) == one_part(0, part)) by {
                reveal(rule);
            }
            reveal(applied);
        },
        OpModel::GatherGradient { axis, batched } => {
            let part = if batched {
                d.take_along_axis(Expr::Is(v.args[1]), axis)
            } else {
                d.take(Expr::Is(v.args[1]), axis)
            };
            assert(rule(v, dy) == one_part(0, part)) by {
                reveal(rule);
            }
            reveal(applied);
        },
        OpModel::Take { axis } => {
            let part = applied(
                dy.graph,
                OpModel::GatherGradient { axis, batched: false },
                seq![dy, v.args[1]],
                v.args[0].dims,
            );
            assert(rule(v, dy) == one_part(0, part)) by {
                reveal(rule);
            }
            reveal(applied);
        },
        OpModel::TakeAlongAxis { axis } => {
            let part = applied(
                dy.graph,
                OpModel::GatherGradient { axis, batched: true },
                seq![dy, v.args[1]],
                v.args[0].dims,
            );
            assert(rule(v, dy) == one_part(0, part)) by {
                reveal(rule);
            }
            reveal(applied);
        },
        _ => {
            reveal(rule);
        },
    }
}

} // verus!
