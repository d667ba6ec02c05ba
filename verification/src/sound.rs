//! What the constructors of the graph guarantee of each recorded operation.
use crate::graph::Value;
use crate::op::{Conv2dOptions, ConvTranspose2dOptions, OpModel, Pool2dOptions, SliceAxis, Widths};
use crate::shape::{gathered, is_permutation, kept, axes_valid};
use vstd::prelude::*;

verus! {

/// The extent that a half-open strided interval covers.
pub open spec fn slice_extent(axis: SliceAxis) -> int {
    (axis.limit - axis.start + axis.stride - 1) / axis.stride as int
}

/// The extents of a static slice.
pub open spec fn slice_dims(axes: Seq<SliceAxis>) -> Seq<i64> {
    Seq::new(axes.len(), |i: int| slice_extent(axes[i]) as i64)
}

/// Whether a slice stays within an extent and advances.
pub open spec fn slice_fits(axis: SliceAxis, size: i64) -> bool {
    0 <= axis.start <= axis.limit <= size && axis.stride > 0
}

/// Whether padding widths are nonnegative and the padded extents fit.
pub open spec fn padding_fits(dims: Seq<i64>, padding: Seq<Widths>) -> bool {
    &&& padding.len() == dims.len()
    &&& forall|i: int|
        0 <= i < padding.len() ==> (#[trigger] padding[i]).0 >= 0 && padding[i].1 >= 0 && dims[i]
            + padding[i].0 + padding[i].1 <= i64::MAX
}

/// The extents after padding.
pub open spec fn padded(dims: Seq<i64>, padding: Seq<Widths>) -> Seq<i64> {
    Seq::new(dims.len(), |i: int| (dims[i] + padding[i].0 + padding[i].1) as i64)
}

/// The extents of a gather: one axis replaced by the extents of the indices.
pub open spec fn taken(dims: Seq<i64>, indices: Seq<i64>, axis: usize) -> Seq<i64> {
    dims.take(axis as int) + indices + dims.skip(axis as int + 1)
}

/// The sum of one extent over a list of values.
pub open spec fn axis_total(args: Seq<Value>, axis: usize) -> int
    decreases args.len(),
{
    if args.len() == 0 {
        0
    } else {
        axis_total(args.drop_last(), axis) + args.last().dims[axis as int]
    }
}

/// Whether two shapes agree on every axis but one.
pub open spec fn agree_except(a: Seq<i64>, b: Seq<i64>, axis: usize) -> bool {
    a.len() == b.len() && forall|i: int| 0 <= i < a.len() && i != axis ==> a[i] == b[i]
}

/// Whether every value in the list has the given extents.
pub open spec fn all_shaped(args: Seq<Value>, dims: Seq<i64>) -> bool {
    forall|k: int| 0 <= k < args.len() ==> (#[trigger] args[k]).dims == dims
}

/// Whether two matrix shapes of one batch have the third as product shape.
pub open spec fn matmul_fits(a: Seq<i64>, b: Seq<i64>, c: Seq<i64>) -> bool {
    let rank = c.len() as int;
    &&& rank >= 2
    &&& a.len() == rank
    &&& b.len() == rank
    &&& a.take(rank - 2) == c.take(rank - 2)
    &&& b.take(rank - 2) == c.take(rank - 2)
    &&& a[rank - 1] == b[rank - 2]
    &&& c[rank - 2] == a[rank - 2]
    &&& c[rank - 1] == b[rank - 1]
}

/// Whether queries, keys, values and an optional mask share one batch and
/// have the given shape as attention output.
pub open spec fn attention_fits(args: Seq<Value>, dims: Seq<i64>) -> bool {
    let rank = dims.len() as int;
    &&& rank >= 2
    &&& args.len() == 3 || args.len() == 4
    &&& forall|i: int| 0 <= i < args.len() ==> (#[trigger] args[i]).dims.len() == rank
    &&& forall|i: int|
        0 <= i < args.len() ==> (#[trigger] args[i]).dims.take(rank - 2) == dims.take(rank - 2)
    &&& args[0].dims[rank - 2] == dims[rank - 2]
    &&& args[0].dims[rank - 1] == args[1].dims[rank - 1]
    &&& args[1].dims[rank - 2] == args[2].dims[rank - 2]
    &&& args[1].dims[rank - 2] != 0
    &&& args[2].dims[rank - 1] == dims[rank - 1]
    &&& args.len() == 4 ==> args[3].dims[rank - 2] == dims[rank - 2] && args[3].dims[rank - 1]
        == args[1].dims[rank - 2]
}

/// The extent that a dilated kernel covers.
pub open spec fn dilated(kernel: i64, dilation: i64) -> int {
    (kernel - 1) * dilation + 1
}

/// An extent with both paddings.
pub open spec fn padded_extent(size: i64, widths: Widths) -> int {
    size + widths.0 + widths.1
}

/// The number of window positions along one axis.
pub open spec fn window_count(size: i64, window: int, stride: i64, widths: Widths) -> int {
    if padded_extent(size, widths) < window {
        0
    } else {
        (padded_extent(size, widths) - window) / stride as int + 1
    }
}

/// Whether a stride and widths are usable and a padded extent fits.
pub open spec fn window_valid(size: i64, stride: i64, widths: Widths) -> bool {
    stride > 0 && widths.0 >= 0 && widths.1 >= 0 && padded_extent(size, widths) <= i64::MAX
}

/// The extents of a convolution of NHWC data with a kernel of the given height,
/// width and output channels.
pub open spec fn conv_dims(
    x: Seq<i64>,
    kernel: (i64, i64),
    channels: i64,
    options: Conv2dOptions,
) -> Seq<i64> {
    seq![
        x[0],
        window_count(
            x[1],
            dilated(kernel.0, options.dilation.0),
            options.strides.0,
            options.padding.0,
        ) as i64,
        window_count(
            x[2],
            dilated(kernel.1, options.dilation.1),
            options.strides.1,
            options.padding.1,
        ) as i64,
        channels,
    ]
}

/// Whether a convolution of NHWC data with an HWIO kernel is well posed and has
/// the given extents.
pub open spec fn conv_fits(
    x: Seq<i64>,
    k: Seq<i64>,
    options: Conv2dOptions,
    dims: Seq<i64>,
) -> bool {
    &&& x.len() == 4
    &&& k.len() == 4
    &&& options.groups > 0
    &&& k[0] > 0
    &&& k[1] > 0
    &&& k[2] > 0
    &&& k[3] > 0
    &&& x[3] == k[2] * options.groups
    &&& window_valid(x[1], options.strides.0, options.padding.0)
    &&& window_valid(x[2], options.strides.1, options.padding.1)
    &&& options.dilation.0 > 0
    &&& options.dilation.1 > 0
    &&& dilated(k[0], options.dilation.0) <= i64::MAX
    &&& dilated(k[1], options.dilation.1) <= i64::MAX
    &&& dims == conv_dims(x, (k[0], k[1]), k[3], options)
}

/// A kernel shape in HWIO order of an OIHW kernel shape.
pub open spec fn hwio(k: Seq<i64>) -> Seq<i64> {
    seq![k[2], k[3], k[1], k[0]]
}

/// The extent of a transposed convolution along one axis.
pub open spec fn transposed_extent(
    size: i64,
    kernel: i64,
    stride: i64,
    widths: Widths,
    dilation: i64,
    extra: i64,
) -> int {
    (size - 1) * stride + dilated(kernel, dilation) - widths.0 - widths.1 + extra
}

/// Whether the attributes of a transposed convolution are usable along one axis.
pub open spec fn transposed_valid(
    size: i64,
    kernel: i64,
    stride: i64,
    widths: Widths,
    dilation: i64,
    extra: i64,
) -> bool {
    &&& stride > 0
    &&& dilation > 0
    &&& widths.0 >= 0
    &&& widths.1 >= 0
    &&& 0 <= extra < stride
    &&& dilated(kernel, dilation) <= i64::MAX
    &&& (size - 1) * stride + dilated(kernel, dilation) + extra <= i64::MAX
    &&& transposed_extent(size, kernel, stride, widths, dilation, extra) >= 0
}

/// Whether a transposed convolution of NHWC data with a kernel in
/// height, width, output, input order is well posed and has the given extents.
pub open spec fn conv_transpose_fits(
    x: Seq<i64>,
    k: Seq<i64>,
    options: ConvTranspose2dOptions,
    dims: Seq<i64>,
) -> bool {
    &&& x.len() == 4
    &&& k.len() == 4
    &&& k[0] > 0
    &&& k[1] > 0
    &&& k[2] > 0
    &&& k[3] > 0
    &&& x[1] > 0
    &&& x[2] > 0
    &&& x[3] == k[3]
    &&& transposed_valid(
        x[1],
        k[0],
        options.strides.0,
        options.padding.0,
        options.dilation.0,
        options.output_padding.0,
    )
    &&& transposed_valid(
        x[2],
        k[1],
        options.strides.1,
        options.padding.1,
        options.dilation.1,
        options.output_padding.1,
    )
    &&& dims == seq![
        x[0],
        transposed_extent(
            x[1],
            k[0],
            options.strides.0,
            options.padding.0,
            options.dilation.0,
            options.output_padding.0,
        ) as i64,
        transposed_extent(
            x[2],
            k[1],
            options.strides.1,
            options.padding.1,
            options.dilation.1,
            options.output_padding.1,
        ) as i64,
        k[2],
    ]
}

/// The extents of pooled NHWC data.
pub open spec fn pool_dims(x: Seq<i64>, options: Pool2dOptions) -> Seq<i64> {
    seq![
        x[0],
        window_count(x[1], options.window.0 as int, options.strides.0, options.padding.0) as i64,
        window_count(x[2], options.window.1 as int, options.strides.1, options.padding.1) as i64,
        x[3],
    ]
}

/// Whether a pooling of NHWC data is well posed and has the given extents.
pub open spec fn pool_fits(x: Seq<i64>, options: Pool2dOptions, dims: Seq<i64>) -> bool {
    &&& x.len() == 4
    &&& options.window.0 > 0
    &&& options.window.1 > 0
    &&& window_valid(x[1], options.strides.0, options.padding.0)
    &&& window_valid(x[2], options.strides.1, options.padding.1)
    &&& dims == pool_dims(x, options)
}

/// The operands, attributes and extents of an operation fit together.
pub open spec fn sound(op: OpModel, args: Seq<Value>, dims: Seq<i64>) -> bool {
    match op {
        OpModel::Unary(..)
        | OpModel::Relu
        | OpModel::Softplus
        | OpModel::Sigmoid
        | OpModel::StopGradient
        | OpModel::OptimizationBarrier
        | OpModel::Convert { .. }
        | OpModel::IsFiniteMask
        | OpModel::Reverse { .. }
        | OpModel::IndexToFloat
        | OpModel::Bf16ToFloat
        | OpModel::StateRead { .. }
        | OpModel::StateWrite { .. } => args.len() == 1 && args[0].dims == dims,
        OpModel::Cumsum { axis } => args.len() == 1 && args[0].dims == dims && axis < dims.len(),
        OpModel::Binary(..)
        | OpModel::CompareMask(..)
        | OpModel::IntegerBinary(..)
        | OpModel::IndexLessEqualMask
        | OpModel::WithGradient => args.len() == 2 && args[0].dims == dims && args[1].dims == dims,
        OpModel::Select => args.len() == 3 && args[0].dims == dims && args[1].dims == dims
            && args[2].dims == dims,
        OpModel::WithElementwiseDerivative => args.len() >= 3 && args.len() % 2 == 1 && all_shaped(
            args,
            dims,
        ),
        OpModel::Reshape => args.len() == 1,
        OpModel::Broadcast { axes } => args.len() == 1 && axes.len() == args[0].dims.len(),
        OpModel::Transpose { permutation } => args.len() == 1 && is_permutation(
            permutation,
            args[0].dims.len(),
        ) && dims == gathered(args[0].dims, permutation),
        OpModel::Reduce { axes, .. } => args.len() == 1 && axes_valid(axes, args[0].dims.len())
            && dims == kept(args[0].dims, axes),
        OpModel::Slice(axes) => args.len() == 1 && dims == slice_dims(axes) && axes.len()
            == args[0].dims.len() && forall|i: int|
            0 <= i < axes.len() ==> slice_fits(#[trigger] axes[i], args[0].dims[i]),
        OpModel::SliceGradient(axes) => args.len() == 1 && args[0].dims == slice_dims(axes)
            && axes.len() == dims.len() && forall|i: int|
            0 <= i < axes.len() ==> slice_fits(#[trigger] axes[i], dims[i]),
        OpModel::Pad(padding) => args.len() == 2 && args[1].dims.len() == 0 && padding_fits(
            args[0].dims,
            padding,
        ) && dims == padded(args[0].dims, padding),
        OpModel::Concatenate { axis } => args.len() >= 1 && axis < dims.len() && axis_total(
            args,
            axis,
        ) == dims[axis as int] && forall|k: int|
            0 <= k < args.len() ==> agree_except((#[trigger] args[k]).dims, dims, axis),
        OpModel::Take { axis } => args.len() == 2 && axis < args[0].dims.len() && dims == taken(
            args[0].dims,
            args[1].dims,
            axis,
        ),
        OpModel::TakeAlongAxis { axis } => args.len() == 2 && dims == args[1].dims && axis
            < args[0].dims.len() && agree_except(args[0].dims, dims, axis),
        OpModel::GatherGradient { axis, batched } => args.len() == 2 && axis < dims.len() && if batched {
            args[0].dims == args[1].dims && agree_except(args[0].dims, dims, axis)
        } else {
            args[0].dims == taken(dims, args[1].dims, axis)
        },
        OpModel::DynamicSlice => args.len() >= 1,
        OpModel::DynamicUpdateSlice => args.len() >= 2 && args[0].dims == dims,
        OpModel::Matmul { .. } => args.len() == 2 && matmul_fits(args[0].dims, args[1].dims, dims),
        OpModel::Attention { .. } => attention_fits(args, dims),
        OpModel::Conv2d(options) => args.len() == 2 && conv_fits(
            args[0].dims,
            args[1].dims,
            options,
            dims,
        ),
        OpModel::Conv2dOihw(options) => args.len() == 2 && args[1].dims.len() == 4 && conv_fits(
            args[0].dims,
            hwio(args[1].dims),
            options,
            dims,
        ),
        OpModel::ConvTranspose2d(options) => args.len() == 2 && conv_transpose_fits(
            args[0].dims,
            args[1].dims,
            options,
            dims,
        ),
        OpModel::Conv2dInputGradient(options) => args.len() == 2 && conv_fits(
            dims,
            args[1].dims,
            options,
            args[0].dims,
        ),
        OpModel::Conv2dKernelGradient(options) => args.len() == 2 && conv_fits(
            args[0].dims,
            dims,
            options,
            args[1].dims,
        ),
        OpModel::MaxPool2d(options) | OpModel::SumPool2d(options) => args.len() == 1 && pool_fits(
            args[0].dims,
            options,
            dims,
        ),
        _ => true,
    }
}

} // verus!
