//! Static and dynamic indexing, padding, gathering and integer arithmetic.
use crate::dtype::DType;
use crate::edges::edge_paddings_succeed_unless_refused;
use crate::error::{err, invalid, Error};
use crate::graph::{applied, iota, scalar, scalar_i32, typed, values_of, Expr, Graph, Tensor, Value};
use crate::op::{Binary, IntegerBinary, Op, OpModel, Scalar, SliceAxis, Widths};
use crate::shape::{bad_shape, elements, lemma_volume_nonnegative, same_dims, volume};
use crate::sound::{agree_except, axis_total, padded, padding_fits, slice_dims, slice_fits, taken};
use vstd::prelude::*;

verus! {

/// Start, limit and stride of every axis.
pub open spec fn slices_of(starts: Seq<i64>, limits: Seq<i64>, strides: Seq<i64>) -> Seq<
    SliceAxis,
> {
    Seq::new(
        starts.len(),
        |i: int| SliceAxis { start: starts[i], limit: limits[i], stride: strides[i] },
    )
}

/// The first axis, from `axis` on, whose slice does not fit its extent.
pub open spec fn first_misfit(dims: Seq<i64>, axes: Seq<SliceAxis>, axis: nat) -> Option<nat>
    decreases axes.len() - axis,
{
    if axis >= axes.len() {
        None
    } else if !slice_fits(axes[axis as int], dims[axis as int]) {
        Some(axis)
    } else {
        first_misfit(dims, axes, axis + 1)
    }
}

/// The slice of `length` elements from `start` along one axis, whole elsewhere.
pub open spec fn narrowing(dims: Seq<i64>, axis: usize, start: i64, length: i64) -> Seq<
    SliceAxis,
> {
    Seq::new(
        dims.len(),
        |i: int|
            if i == axis {
                SliceAxis { start, limit: (start + length) as i64, stride: 1 }
            } else {
                SliceAxis { start: 0, limit: dims[i], stride: 1 }
            },
    )
}

/// The first reason, among the first `count` values, why they cannot be joined.
pub open spec fn join_error(args: Seq<Value>, axis: usize, count: nat) -> Option<Error>
    decreases count,
{
    if count == 0 {
        None
    } else {
        let last = args[count - 1];
        match join_error(args, axis, (count - 1) as nat) {
            Some(e) => Some(e),
            None => if last.graph != args[0].graph {
                Some(invalid("cross-graph operands"))
            } else if !agree_except(last.dims, args[0].dims, axis) {
                Some(invalid("concatenate non-axis dimensions must match"))
            } else if axis_total(args.take(count as int), axis) > i64::MAX {
                Some(invalid("concatenate dimension overflow"))
            } else {
                None
            },
        }
    }
}

/// Values joined along an existing axis.
#[verifier::opaque]
pub open spec fn concatenated(args: Seq<Value>, axis: usize) -> Expr {
    if args.len() == 0 {
        Expr::invalid("concatenate requires tensors")
    } else if axis >= args[0].dims.len() {
        Expr::invalid("concatenate axis out of range")
    } else {
        match join_error(args, axis, args.len()) {
            Some(e) => Expr::Fails(e),
            None => if args.len() == 1 {
                Expr::Is(args[0])
            } else {
                applied(
                    args[0].graph,
                    OpModel::Concatenate { axis },
                    args,
                    args[0].dims.update(axis as int, axis_total(args, axis) as i64),
                )
            },
        }
    }
}

/// The values of a list of expressions, or the first failure among them.
pub open spec fn collect(parts: Seq<Expr>) -> Result<Seq<Value>, Error>
    decreases parts.len(),
{
    if parts.len() == 0 {
        Ok(Seq::empty())
    } else {
        match collect(parts.drop_last()) {
            Err(e) => Err(e),
            Ok(values) => match parts.last() {
                Expr::Fails(e) => Err(e),
                Expr::Is(v) => Ok(values.push(v)),
            },
        }
    }
}

/// The values of two expressions, or the first failure.
pub open spec fn two(a: Expr, b: Expr) -> Result<Seq<Value>, Error> {
    match (a, b) {
        (Expr::Fails(e), _) => Err(e),
        (_, Expr::Fails(e)) => Err(e),
        (Expr::Is(x), Expr::Is(y)) => Ok(seq![x, y]),
    }
}

/// The values of four expressions, or the first failure.
pub open spec fn four(a: Expr, b: Expr, c: Expr, d: Expr) -> Result<Seq<Value>, Error> {
    match (a, b, c, d) {
        (Expr::Fails(e), _, _, _) => Err(e),
        (_, Expr::Fails(e), _, _) => Err(e),
        (_, _, Expr::Fails(e), _) => Err(e),
        (_, _, _, Expr::Fails(e)) => Err(e),
        (Expr::Is(x), Expr::Is(y), Expr::Is(z), Expr::Is(w)) => Ok(seq![x, y, z, w]),
    }
}

/// Values joined along an existing axis, if there are any.
pub open spec fn joined(parts: Result<Seq<Value>, Error>, axis: usize) -> Expr {
    match parts {
        Err(e) => Expr::Fails(e),
        Ok(args) => concatenated(args, axis),
    }
}

/// The first reason, among the first `count` values, why they cannot be stacked.
pub open spec fn stack_error(args: Seq<Value>, count: nat) -> Option<Error>
    decreases count,
{
    if count == 0 {
        None
    } else {
        let last = args[count - 1];
        match stack_error(args, (count - 1) as nat) {
            Some(e) => Some(e),
            None => if last.dims != args[0].dims {
                Some(invalid("stack requires identical input shapes"))
            } else if last.graph != args[0].graph {
                Some(invalid("cross-graph stack operands"))
            } else {
                None
            },
        }
    }
}

/// Values of equal extents joined along a new axis.
#[verifier::opaque]
pub open spec fn stacked(args: Seq<Value>, axis: usize) -> Expr {
    if args.len() == 0 {
        Expr::invalid("stack requires tensors")
    } else if axis > args[0].dims.len() {
        Expr::invalid("stack axis out of range")
    } else {
        match stack_error(args, args.len()) {
            Some(e) => Expr::Fails(e),
            None => joined(
                collect(Seq::new(args.len(), |k: int| Expr::Is(args[k]).unsqueeze(axis))),
                axis,
            ),
        }
    }
}

/// Values of equal extents joined along a new axis, if there are any.
pub open spec fn stacked_all(parts: Result<Seq<Value>, Error>, axis: usize) -> Expr {
    match parts {
        Err(e) => Expr::Fails(e),
        Ok(args) => stacked(args, axis),
    }
}

/// The slices of a value along one axis, in ascending index order.
pub open spec fn unbound(x: Value, axis: usize) -> Result<Seq<Value>, Error> {
    if axis >= x.dims.len() {
        Err(invalid("unbind axis out of range"))
    } else {
        collect(
            Seq::new(
                x.dims[axis as int] as nat,
                |i: int|
                    Expr::Is(x).narrow(axis, i as i64, 1).reshape(x.dims.remove(axis as int)),
            ),
        )
    }
}

/// The first reason, among the first `count` axes, why a padding is refused.
pub open spec fn pad_error(dims: Seq<i64>, padding: Seq<Widths>, count: nat) -> Option<Error>
    decreases count,
{
    if count == 0 {
        None
    } else {
        let last = padding[count - 1];
        match pad_error(dims, padding, (count - 1) as nat) {
            Some(e) => Some(e),
            None => if last.0 < 0 || last.1 < 0 {
                Some(invalid("pad widths must be nonnegative; use slice for cropping"))
            } else if dims[count - 1] + last.0 + last.1 > i64::MAX {
                Some(invalid("padded dimension overflow"))
            } else {
                None
            },
        }
    }
}

/// The extents after padding, or the refusal.
pub open spec fn padding_shape(dims: Seq<i64>, padding: Seq<Widths>) -> Result<Seq<i64>, Error> {
    if padding.len() != dims.len() {
        Err(invalid("pad requires one low/high pair per axis"))
    } else {
        match pad_error(dims, padding, padding.len()) {
            Some(e) => Err(e),
            None => if volume(padded(dims, padding)) is None {
                Err(bad_shape())
            } else {
                Ok(padded(dims, padding))
            },
        }
    }
}

/// The first reason why widths cannot replicate the edges of a shape.
pub open spec fn replicate_error(dims: Seq<i64>, padding: Seq<Widths>) -> Option<Error> {
    match padding_shape(dims, padding) {
        Err(e) => Some(e),
        Ok(_) => if exists|i: int|
            0 <= i < padding.len() && dims[i] == 0 && ((#[trigger] padding[i]).0 != 0
                || padding[i].1 != 0) {
            Some(invalid("cannot replicate padding from an empty axis"))
        } else {
            None
        },
    }
}

/// The first reason why widths cannot reflect a shape across its edges.
pub open spec fn reflect_error(dims: Seq<i64>, padding: Seq<Widths>) -> Option<Error> {
    match padding_shape(dims, padding) {
        Err(e) => Some(e),
        Ok(_) => if exists|i: int|
            0 <= i < padding.len() && (((#[trigger] padding[i]).0 > 0 && padding[i].0 >= dims[i])
                || (padding[i].1 > 0 && padding[i].1 >= dims[i])) {
            Some(invalid("reflection widths must be smaller than the source dimension"))
        } else {
            None
        },
    }
}

/// The first reason why the starts and sizes of a dynamic slice are refused.
pub open spec fn dynamic_error(
    graph: u64,
    dims: Seq<i64>,
    starts: Seq<Value>,
    sizes: Seq<i64>,
) -> Option<Error> {
    if starts.len() != dims.len() || sizes.len() != dims.len() {
        Some(invalid("dynamic slicing requires one index and size per axis"))
    } else if exists|i: int| 0 <= i < starts.len() && (#[trigger] starts[i]).dtype != DType::I32 {
        Some(invalid("dynamic slice starts must be I32"))
    } else if exists|i: int| 0 <= i < starts.len() && (#[trigger] starts[i]).dims.len() != 0 {
        Some(invalid("dynamic slice starts must be scalar"))
    } else if exists|i: int| 0 <= i < starts.len() && (#[trigger] starts[i]).graph != graph {
        Some(invalid("cross-graph index"))
    } else if exists|i: int|
        0 <= i < sizes.len() && ((#[trigger] sizes[i]) < 0 || sizes[i] > dims[i]) {
        Some(invalid("dynamic slice size must be within operand dimensions"))
    } else {
        None
    }
}

/// Whether the sizes are nonnegative and their sums, from the left, fit `i64`.
pub open spec fn sizes_total(sizes: Seq<i64>) -> Option<int>
    decreases sizes.len(),
{
    if sizes.len() == 0 {
        Some(0)
    } else {
        match sizes_total(sizes.drop_last()) {
            None => None,
            Some(sum) => if sizes.last() < 0 || sum + sizes.last() > i64::MAX {
                None
            } else {
                Some(sum + sizes.last())
            },
        }
    }
}

/// Consecutive pieces of a value along one axis.
pub open spec fn pieces(x: Value, axis: usize, sizes: Seq<i64>) -> Result<Seq<Value>, Error> {
    if axis >= x.dims.len() || sizes.len() == 0 {
        Err(invalid("split requires a valid axis and nonempty sizes"))
    } else if sizes_total(sizes) != Some(x.dims[axis as int] as int) {
        Err(invalid("split sizes must sum to the axis length"))
    } else {
        collect(
            Seq::new(
                sizes.len(),
                |k: int|
                    Expr::Is(x).narrow(
                        axis,
                        sizes_total(sizes.take(k)).unwrap() as i64,
                        sizes[k],
                    ),
            ),
        )
    }
}

/// One axis extended by copies of its edge elements.
pub open spec fn replicate_axis(x: Value, axis: usize, widths: Widths) -> Expr {
    let (low, high) = widths;
    let self_ = Expr::Is(x);
    if low == 0 && high == 0 {
        self_
    } else {
        let head = if low > 0 {
            seq![self_.narrow(axis, 0, 1).broadcast_to(x.dims.update(axis as int, low))]
        } else {
            Seq::empty()
        };
        let tail = if high > 0 {
            seq![
                self_.narrow(axis, (x.dims[axis as int] - 1) as i64, 1).broadcast_to(
                    x.dims.update(axis as int, high),
                ),
            ]
        } else {
            Seq::empty()
        };
        joined(collect(head + seq![self_] + tail), axis)
    }
}

/// One axis extended by its elements mirrored at the edges.
pub open spec fn reflect_axis(x: Value, axis: usize, widths: Widths) -> Expr {
    let (low, high) = widths;
    let self_ = Expr::Is(x);
    if low == 0 && high == 0 {
        self_
    } else {
        let head = if low > 0 {
            seq![self_.narrow(axis, 1, low).flip(seq![axis])]
        } else {
            Seq::empty()
        };
        let tail = if high > 0 {
            seq![
                self_.narrow(axis, (x.dims[axis as int] - high - 1) as i64, high).flip(seq![axis]),
            ]
        } else {
            Seq::empty()
        };
        joined(collect(head + seq![self_] + tail), axis)
    }
}

/// The first `count` axes extended one after another.
pub open spec fn extended(x: Value, padding: Seq<Widths>, count: nat, reflect: bool) -> Expr
    decreases count,
{
    if count == 0 {
        Expr::Is(x)
    } else {
        match extended(x, padding, (count - 1) as nat, reflect) {
            Expr::Fails(e) => Expr::Fails(e),
            Expr::Is(y) => if reflect {
                reflect_axis(y, (count - 1) as usize, padding[count - 1])
            } else {
                replicate_axis(y, (count - 1) as usize, padding[count - 1])
            },
        }
    }
}

impl Expr {
    /// Static slices of every axis.
    pub open spec fn sliced(self, axes: Seq<SliceAxis>) -> Expr {
        match self {
            Expr::Fails(e) => Expr::Fails(e),
            Expr::Is(x) => match first_misfit(x.dims, axes, 0) {
                Some(axis) => Expr::Fails(Error::SliceAxis { axis: axis as usize }),
                None => applied(x.graph, OpModel::Slice(axes), seq![x], slice_dims(axes)),
            },
        }
    }

    /// Static, half-open, strided slicing of every axis.
    pub open spec fn slice(self, starts: Seq<i64>, limits: Seq<i64>, strides: Seq<i64>) -> Expr {
        match self {
            Expr::Fails(e) => Expr::Fails(e),
            Expr::Is(x) => if starts.len() != x.dims.len() || limits.len() != x.dims.len()
                || strides.len() != x.dims.len() {
                Expr::invalid("slice requires one start, limit and stride per axis")
            } else {
                self.sliced(slices_of(starts, limits, strides))
            },
        }
    }

    /// A contiguous region along one axis.
    #[verifier::opaque]
    pub open spec fn narrow(self, axis: usize, start: i64, length: i64) -> Expr {
        match self {
            Expr::Fails(e) => Expr::Fails(e),
            Expr::Is(x) => if axis >= x.dims.len() || length < 0 {
                Expr::invalid("invalid narrow axis or length")
            } else if start + length > i64::MAX {
                Expr::invalid("narrow bounds overflow")
            } else {
                self.sliced(narrowing(x.dims, axis, start, length))
            },
        }
    }

    /// A bitwise operation on I32 patterns.
    pub open spec fn integer_binary(self, rhs: Expr, op: IntegerBinary) -> Expr {
        match (self, rhs) {
            (Expr::Fails(e), _) => Expr::Fails(e),
            (_, Expr::Fails(e)) => Expr::Fails(e),
            (Expr::Is(x), Expr::Is(y)) => if x.dtype != DType::I32 || y.dtype != DType::I32 {
                Expr::invalid("integer bitwise operands must be I32")
            } else if x.graph != y.graph || x.dims != y.dims {
                Expr::invalid("integer bitwise operands must match graph and shape")
            } else {
                typed(x.graph, OpModel::IntegerBinary(op), seq![x, y], x.dims, DType::I32)
            },
        }
    }

    /// A scalar I32 constant of the same graph, broadcast to the same extents.
    pub open spec fn filled_i32(self, value: i32) -> Expr {
        match self {
            Expr::Fails(e) => Expr::Fails(e),
            Expr::Is(x) => scalar_i32(x.graph, value).broadcast_to(x.dims),
        }
    }

    /// AND of I32 patterns.
    pub open spec fn bitwise_and(self, rhs: Expr) -> Expr {
        self.integer_binary(rhs, IntegerBinary::And)
    }

    /// OR of I32 patterns.
    pub open spec fn bitwise_or(self, rhs: Expr) -> Expr {
        self.integer_binary(rhs, IntegerBinary::Or)
    }

    /// XOR of I32 patterns.
    pub open spec fn bitwise_xor(self, rhs: Expr) -> Expr {
        self.integer_binary(rhs, IntegerBinary::Xor)
    }

    /// Complement of I32 patterns.
    pub open spec fn bitwise_not(self) -> Expr {
        self.bitwise_xor(self.filled_i32(-1i32))
    }

    /// A shift of I32 patterns by a constant count.
    pub open spec fn shift(self, bits: u32, op: IntegerBinary) -> Expr {
        match self {
            Expr::Fails(e) => Expr::Fails(e),
            Expr::Is(x) => if bits >= 32 {
                Expr::invalid("I32 shift count must be less than 32")
            } else {
                self.integer_binary(self.filled_i32(bits as i32), op)
            },
        }
    }

    /// Left shift; high bits are discarded.
    pub open spec fn shift_left(self, bits: u32) -> Expr {
        self.shift(bits, IntegerBinary::ShiftLeft)
    }

    /// Right shift with zero fill.
    pub open spec fn shift_right_logical(self, bits: u32) -> Expr {
        self.shift(bits, IntegerBinary::ShiftRightLogical)
    }

    /// Right shift with sign extension.
    pub open spec fn shift_right_arithmetic(self, bits: u32) -> Expr {
        self.shift(bits, IntegerBinary::ShiftRightArithmetic)
    }

    /// I32 or BF16 to F32; F32 is unchanged.
    pub open spec fn to_f32(self) -> Expr {
        match self {
            Expr::Fails(e) => Expr::Fails(e),
            Expr::Is(x) => match x.dtype {
                DType::F32 => self,
                DType::I32 => applied(x.graph, OpModel::IndexToFloat, seq![x], x.dims),
                DType::BF16 => applied(x.graph, OpModel::Bf16ToFloat, seq![x], x.dims),
                dtype => Expr::Fails(Error::CannotConvert { dtype }),
            },
        }
    }

    /// Elementwise I32 arithmetic modulo 2^32.
    pub open spec fn arithmetic(self, rhs: Expr, op: Binary) -> Expr {
        match (self, rhs) {
            (Expr::Fails(e), _) => Expr::Fails(e),
            (_, Expr::Fails(e)) => Expr::Fails(e),
            (Expr::Is(x), Expr::Is(y)) => if x.dtype != DType::I32 || y.dtype != DType::I32 {
                Expr::invalid("wrapping arithmetic operands must be I32")
            } else if x.graph != y.graph {
                Expr::invalid("cross-graph index arithmetic")
            } else if x.dims != y.dims {
                Expr::invalid("index arithmetic shape mismatch; broadcast explicitly")
            } else {
                typed(x.graph, OpModel::Binary(op), seq![x, y], x.dims, DType::I32)
            },
        }
    }

    /// I32 addition modulo 2^32.
    pub open spec fn wrapping_add(self, rhs: Expr) -> Expr {
        self.arithmetic(rhs, Binary::Add)
    }

    /// I32 subtraction modulo 2^32.
    pub open spec fn wrapping_sub(self, rhs: Expr) -> Expr {
        self.arithmetic(rhs, Binary::Sub)
    }

    /// I32 multiplication modulo 2^32.
    pub open spec fn wrapping_mul(self, rhs: Expr) -> Expr {
        self.arithmetic(rhs, Binary::Mul)
    }

    /// I32 addition of a constant modulo 2^32.
    #[verifier::opaque]
    pub open spec fn wrapping_add_scalar(self, value: i32) -> Expr {
        self.wrapping_add(self.filled_i32(value))
    }

    /// Index of the first maximum along an axis.
    pub open spec fn argmax(self, axis: usize, keep_dims: bool) -> Expr {
        match self {
            Expr::Fails(e) => Expr::Fails(e),
            Expr::Is(x) => if axis >= x.dims.len() || x.dims[axis as int] <= 0
                || x.dims[axis as int] > i32::MAX {
                Expr::invalid("argmax requires a nonempty axis with I32-sized length")
            } else {
                let dims = x.dims.remove(axis as int);
                let found = typed(x.graph, OpModel::ArgMax { axis }, seq![x], dims, DType::I32);
                if keep_dims {
                    found.reshape(dims.insert(axis as int, 1))
                } else {
                    found
                }
            },
        }
    }

    /// A unit axis inserted.
    pub open spec fn unsqueeze(self, axis: usize) -> Expr {
        match self {
            Expr::Fails(e) => Expr::Fails(e),
            Expr::Is(x) => if axis > x.dims.len() {
                Expr::invalid("unsqueeze axis out of range")
            } else {
                self.reshape(x.dims.insert(axis as int, 1))
            },
        }
    }

    /// A unit axis removed.
    pub open spec fn squeeze(self, axis: usize) -> Expr {
        match self {
            Expr::Fails(e) => Expr::Fails(e),
            Expr::Is(x) => if axis >= x.dims.len() || x.dims[axis as int] != 1 {
                Expr::invalid("squeeze requires a valid size-one axis")
            } else {
                self.reshape(x.dims.remove(axis as int))
            },
        }
    }

    /// Constant edge padding with a scalar constant.
    pub open spec fn pad(self, padding: Seq<Widths>, value: Scalar) -> Expr {
        match self {
            Expr::Fails(e) => Expr::Fails(e),
            Expr::Is(x) => match padding_shape(x.dims, padding) {
                Err(e) => Expr::Fails(e),
                Ok(dims) => if dims == x.dims {
                    self
                } else {
                    match scalar(x.graph, value) {
                        Expr::Fails(e) => Expr::Fails(e),
                        Expr::Is(fill) => applied(
                            x.graph,
                            OpModel::Pad(padding),
                            seq![x, fill],
                            dims,
                        ),
                    }
                },
            },
        }
    }

    /// Constant edge padding with a rank-zero tensor.
    pub open spec fn pad_with_scalar(self, padding: Seq<Widths>, fill: Expr) -> Expr {
        match (self, fill) {
            (Expr::Fails(e), _) => Expr::Fails(e),
            (_, Expr::Fails(e)) => Expr::Fails(e),
            (Expr::Is(x), Expr::Is(f)) => if x.graph != f.graph || f.dims.len() != 0 {
                Expr::invalid("padding fill must be a same-graph scalar")
            } else {
                match padding_shape(x.dims, padding) {
                    Err(e) => Expr::Fails(e),
                    Ok(dims) => if dims == x.dims {
                        self
                    } else {
                        applied(x.graph, OpModel::Pad(padding), seq![x, f], dims)
                    },
                }
            },
        }
    }

    /// Padding by copies of the edge elements.
    pub open spec fn pad_replicate(self, padding: Seq<Widths>) -> Expr {
        match self {
            Expr::Fails(e) => Expr::Fails(e),
            Expr::Is(x) => match replicate_error(x.dims, padding) {
                Some(e) => Expr::Fails(e),
                None => extended(x, padding, padding.len(), false),
            },
        }
    }

    /// Padding by mirror images that do not repeat the edge elements.
    pub open spec fn pad_reflect(self, padding: Seq<Widths>) -> Expr {
        match self {
            Expr::Fails(e) => Expr::Fails(e),
            Expr::Is(x) => match reflect_error(x.dims, padding) {
                Some(e) => Expr::Fails(e),
                None => extended(x, padding, padding.len(), true),
            },
        }
    }

    /// Selection along an axis, separately at each other position.
    pub open spec fn take_along_axis(self, indices: Expr, axis: usize) -> Expr {
        match (self, indices) {
            (Expr::Fails(e), _) => Expr::Fails(e),
            (_, Expr::Fails(e)) => Expr::Fails(e),
            (Expr::Is(x), Expr::Is(i)) => if i.dtype != DType::I32 {
                Expr::invalid("gather indices must be I32")
            } else if x.graph != i.graph {
                Expr::invalid("cross-graph index")
            } else if axis >= x.dims.len() || x.dims[axis as int] == 0 {
                Expr::invalid("take_along_axis requires a nonempty valid axis")
            } else if !agree_except(x.dims, i.dims, axis) {
                Expr::invalid("take_along_axis requires equal rank and non-axis dimensions")
            } else {
                applied(x.graph, OpModel::TakeAlongAxis { axis }, seq![x, i], i.dims)
            },
        }
    }

    /// The failure of `topk`, if the request is refused.
    pub open spec fn topk_refused(x: Value, k: usize, axis: usize) -> bool {
        axis >= x.dims.len() || x.dims[axis as int] > i32::MAX || k > x.dims[axis as int]
    }

    /// Indices of the largest `k` values along an axis, in descending order.
    pub open spec fn topk_indices(self, k: usize, axis: usize) -> Expr {
        match self {
            Expr::Fails(e) => Expr::Fails(e),
            Expr::Is(x) => if Expr::topk_refused(x, k, axis) {
                Expr::invalid("topk requires a valid I32-sized axis and k <= axis size")
            } else if k == 0 {
                iota(x.graph, x.dims.update(axis as int, 0), axis)
            } else {
                typed(
                    x.graph,
                    OpModel::SortedIndices { axis, descending: true },
                    seq![x],
                    x.dims,
                    DType::I32,
                ).narrow(axis, 0, k as i64)
            },
        }
    }

    /// The largest `k` values along an axis, in descending order.
    pub open spec fn topk_values(self, k: usize, axis: usize) -> Expr {
        match self {
            Expr::Fails(e) => Expr::Fails(e),
            Expr::Is(x) => if Expr::topk_refused(x, k, axis) {
                Expr::invalid("topk requires a valid I32-sized axis and k <= axis size")
            } else if k == 0 {
                self.narrow(axis, 0, 0)
            } else {
                self.take_along_axis(self.topk_indices(k, axis), axis)
            },
        }
    }

    /// Stable ordering indices along an axis.
    pub open spec fn argsort(self, axis: usize, descending: bool) -> Expr {
        match self {
            Expr::Fails(e) => Expr::Fails(e),
            Expr::Is(x) => if axis >= x.dims.len() || x.dims[axis as int] > i32::MAX {
                Expr::invalid("argsort requires a valid I32-sized axis")
            } else if x.dims[axis as int] == 0 {
                iota(x.graph, x.dims, axis)
            } else {
                typed(
                    x.graph,
                    OpModel::SortedIndices { axis, descending },
                    seq![x],
                    x.dims,
                    DType::I32,
                )
            },
        }
    }

    /// Gather along one axis.
    pub open spec fn take(self, indices: Expr, axis: usize) -> Expr {
        match (self, indices) {
            (Expr::Fails(e), _) => Expr::Fails(e),
            (_, Expr::Fails(e)) => Expr::Fails(e),
            (Expr::Is(x), Expr::Is(i)) => if x.graph != i.graph {
                Expr::invalid("cross-graph index")
            } else if axis >= x.dims.len() || x.dims[axis as int] == 0 {
                Expr::invalid("take requires a nonempty valid axis")
            } else {
                applied(
                    x.graph,
                    OpModel::Take { axis },
                    seq![x, i],
                    taken(x.dims, i.dims, axis),
                )
            },
        }
    }

    /// A fixed-size slice at runtime indices.
    pub open spec fn dynamic_slice(self, starts: Seq<Value>, sizes: Seq<i64>) -> Expr {
        match self {
            Expr::Fails(e) => Expr::Fails(e),
            Expr::Is(x) => match dynamic_error(x.graph, x.dims, starts, sizes) {
                Some(e) => Expr::Fails(e),
                None => applied(x.graph, OpModel::DynamicSlice, seq![x] + starts, sizes),
            },
        }
    }

    /// A region at runtime indices replaced.
    pub open spec fn dynamic_update_slice(self, update: Expr, starts: Seq<Value>) -> Expr {
        match (self, update) {
            (Expr::Fails(e), _) => Expr::Fails(e),
            (_, Expr::Fails(e)) => Expr::Fails(e),
            (Expr::Is(x), Expr::Is(u)) => if x.graph != u.graph {
                Expr::invalid("cross-graph update")
            } else {
                match dynamic_error(x.graph, x.dims, starts, u.dims) {
                    Some(e) => Expr::Fails(e),
                    None => applied(
                        x.graph,
                        OpModel::DynamicUpdateSlice,
                        seq![x, u] + starts,
                        x.dims,
                    ),
                }
            },
        }
    }

    /// Indexed updates added along one axis.
    pub open spec fn index_add(self, axis: usize, indices: Expr, updates: Expr) -> Expr {
        match (self, indices, updates) {
            (Expr::Fails(e), _, _) => Expr::Fails(e),
            (_, Expr::Fails(e), _) => Expr::Fails(e),
            (_, _, Expr::Fails(e)) => Expr::Fails(e),
            (Expr::Is(x), Expr::Is(i), Expr::Is(u)) => if x.graph != i.graph || x.graph != u.graph {
                Expr::invalid("cross-graph indexed update")
            } else if x.dtype != DType::F32 || u.dtype != DType::F32 || i.dtype != DType::I32
                || axis >= x.dims.len() || x.dims[axis as int] == 0 {
                Expr::invalid(
                    "index_add requires F32 tensors, I32 indices and a nonempty valid axis",
                )
            } else if u.dims != taken(x.dims, i.dims, axis) {
                Expr::invalid("index_add update shape does not match indexed result shape")
            } else {
                self.add(
                    applied(
                        x.graph,
                        OpModel::GatherGradient { axis, batched: false },
                        seq![u, i],
                        x.dims,
                    ),
                )
            },
        }
    }

    /// A circular shift along one axis.
    pub open spec fn roll(self, shift: i64, axis: usize) -> Expr {
        match self {
            Expr::Fails(e) => Expr::Fails(e),
            Expr::Is(x) => if axis >= x.dims.len() {
                Expr::invalid("roll axis out of range")
            } else if x.dims[axis as int] == 0 || shift as int % x.dims[axis as int] as int == 0 {
                self
            } else {
                let size = x.dims[axis as int];
                let distance = (shift as int % size as int) as i64;
                joined(
                    two(
                        self.narrow(axis, (size - distance) as i64, distance),
                        self.narrow(axis, 0, (size - distance) as i64),
                    ),
                    axis,
                )
            },
        }
    }

    /// Each element repeated consecutively along one axis.
    pub open spec fn repeat_interleave(self, repeats: i64, axis: usize) -> Expr {
        match self {
            Expr::Fails(e) => Expr::Fails(e),
            Expr::Is(x) => if axis >= x.dims.len() {
                Expr::invalid("repeat_interleave axis out of range")
            } else if repeats < 0 {
                Expr::invalid("repeat_interleave count must be nonnegative")
            } else if x.dims[axis as int] * repeats > i64::MAX {
                Expr::invalid("repeat_interleave dimension overflow")
            } else {
                let output = x.dims.update(axis as int, (x.dims[axis as int] * repeats) as i64);
                if volume(output) is None {
                    Expr::Fails(bad_shape())
                } else if repeats == 1 {
                    self
                } else {
                    self.unsqueeze((axis + 1) as usize).broadcast_to(
                        x.dims.insert(axis as int + 1, repeats),
                    ).reshape(output)
                }
            },
        }
    }
}

impl Graph {
    /// The outcome is what the expressions say: their values, held by this
    /// graph, or the first failure.
    pub open spec fn yields_all(
        self,
        r: Result<Vec<Tensor>, Error>,
        e: Result<Seq<Value>, Error>,
    ) -> bool {
        match r {
            Ok(tensors) => {
                &&& e == Ok::<Seq<Value>, Error>(values_of(tensors@))
                &&& forall|k: int| 0 <= k < tensors@.len() ==> #[trigger] self.owns(tensors@[k])
            },
            Err(error) => e == Err::<Seq<Value>, Error>(error),
        }
    }

    /// Every handle in a list is admissible here.
    pub open spec fn admits_all(self, tensors: Seq<Tensor>) -> bool {
        forall|k: int| 0 <= k < tensors.len() ==> #[trigger] self.admits(tensors[k])
    }
}

/// A list without failures collects to its values.
pub proof fn lemma_collect_ok(parts: Seq<Expr>, values: Seq<Value>)
    requires
        parts.len() == values.len(),
        forall|k: int| 0 <= k < parts.len() ==> #[trigger] parts[k] == Expr::Is(values[k]),
    ensures
        collect(parts) == Ok::<Seq<Value>, Error>(values),
    decreases parts.len(),
{
    if parts.len() == 0 {
        assert(values =~= Seq::empty());
    } else {
        assert forall|k: int| 0 <= k < parts.drop_last().len() implies #[trigger] parts.drop_last()[k]
            == Expr::Is(values.drop_last()[k]) by {
            assert(parts[k] == Expr::Is(values[k]));
        }
        lemma_collect_ok(parts.drop_last(), values.drop_last());
        assert(parts[parts.len() - 1] == Expr::Is(values[parts.len() - 1]));
        assert(values =~= values.drop_last().push(values.last()));
    }
}

/// The first failure in a list is what collecting it gives.
pub proof fn lemma_collect_err(parts: Seq<Expr>, at: int, error: Error)
    requires
        0 <= at < parts.len(),
        parts[at] == Expr::Fails(error),
        forall|k: int| 0 <= k < at ==> #[trigger] parts[k] is Is,
    ensures
        collect(parts) == Err::<Seq<Value>, Error>(error),
    decreases parts.len(),
{
    if at == parts.len() - 1 {
        let values = Seq::new(at as nat, |k: int| parts[k]->Is_0);
        assert forall|k: int| 0 <= k < at implies #[trigger] parts.drop_last()[k] == Expr::Is(
            values[k],
        ) by {
            assert(parts[k] is Is);
        }
        lemma_collect_ok(parts.drop_last(), values);
    } else {
        assert forall|k: int| 0 <= k < at implies #[trigger] parts.drop_last()[k] is Is by {
            assert(parts[k] is Is);
        }
        lemma_collect_err(parts.drop_last(), at, error);
    }
}

/// A count of strides that rounds up is the quotient, plus one for a remainder.
proof fn lemma_extent(span: int, stride: int)
    by (nonlinear_arith)
    requires
        0 <= span,
        0 < stride,
    ensures
        (span + stride - 1) / stride == span / stride + if span % stride != 0 {
            1int
        } else {
            0int
        },
        0 <= span / stride <= span,
        span % stride != 0 ==> span / stride < span,
{
}

/// The slices of every axis, or the refusal of the first axis that misfits.
fn slice_axes(dims: &[i64], axes: &[SliceAxis]) -> (r: Result<Vec<i64>, Error>)
    requires
        axes@.len() == dims@.len(),
    ensures
        match r {
            Ok(extents) => first_misfit(dims@, axes@, 0) is None && extents@ == slice_dims(axes@)
                && forall|i: int|
                0 <= i < axes@.len() ==> slice_fits(#[trigger] axes@[i], dims@[i]),
            Err(e) => first_misfit(dims@, axes@, 0) matches Some(axis) && e == (Error::SliceAxis {
                axis: axis as usize,
            }),
        },
{
    let mut extents: Vec<i64> = Vec::new();
    let mut axis: usize = 0;
    while axis < dims.len()
        invariant
            axes@.len() == dims@.len(),
            axis <= dims@.len(),
            extents@.len() == axis,
            first_misfit(dims@, axes@, 0) == first_misfit(dims@, axes@, axis as nat),
            forall|i: int| 0 <= i < axis ==> slice_fits(#[trigger] axes@[i], dims@[i]),
            forall|i: int| 0 <= i < axis ==> #[trigger] extents@[i] == slice_dims(axes@)[i],
        decreases dims@.len() - axis,
    {
        let SliceAxis { start, limit, stride } = axes[axis];
        if start < 0 || limit < start || limit > dims[axis] || stride <= 0 {
            return Err(Error::SliceAxis { axis });
        }
        let span: i64 = limit - start;
        proof {
            lemma_extent(span as int, stride as int);
        }
        let whole: i64 = span / stride;
        if span % stride != 0 {
            extents.push(whole + 1);
        } else {
            extents.push(whole);
        }
        axis += 1;
    }
    assert(extents@ =~= slice_dims(axes@));
    Ok(extents)
}

/// Whether two shapes agree on every axis but one.
fn same_except(a: &[i64], b: &[i64], axis: usize) -> (r: bool)
    ensures
        r == agree_except(a@, b@, axis),
{
    if a.len() != b.len() {
        return false;
    }
    let mut i: usize = 0;
    while i < a.len()
        invariant
            a@.len() == b@.len(),
            i <= a@.len(),
            forall|j: int| 0 <= j < i && j != axis ==> a@[j] == b@[j],
        decreases a@.len() - i,
    {
        if i != axis && a[i] != b[i] {
            return false;
        }
        i += 1;
    }
    true
}

/// The joint extent of tensors along an axis, or why they cannot be joined.
fn joined_extent(tensors: &[Tensor], axis: usize) -> (r: Result<i64, Error>)
    requires
        tensors@.len() > 0,
        forall|k: int| 0 <= k < tensors@.len() ==> #[trigger] tensors@[k].wf(),
        axis < tensors@[0]@.dims.len(),
    ensures
        match r {
            Ok(total) => {
                let args = values_of(tensors@);
                &&& join_error(args, axis, args.len()) is None
                &&& total == axis_total(args, axis)
                &&& forall|j: int|
                    0 <= j < args.len() ==> agree_except((#[trigger] args[j]).dims, args[0].dims, axis)
                        && args[j].graph == args[0].graph
            },
            Err(e) => join_error(values_of(tensors@), axis, tensors@.len()) == Some(e),
        },
{
    let ghost args = values_of(tensors@);
    let mut total: i64 = 0;
    let mut k: usize = 0;
    assert(args.take(0) =~= Seq::<Value>::empty());
    assert(tensors@[0].wf());
    while k < tensors.len()
        invariant
            tensors@.len() > 0,
            forall|j: int| 0 <= j < tensors@.len() ==> #[trigger] tensors@[j].wf(),
            axis < args[0].dims.len(),
            args == values_of(tensors@),
            k <= tensors@.len(),
            total == axis_total(args.take(k as int), axis),
            join_error(args, axis, k as nat) is None,
            forall|j: int|
                0 <= j < k ==> agree_except((#[trigger] args[j]).dims, args[0].dims, axis)
                    && args[j].graph == args[0].graph,
        decreases tensors@.len() - k,
    {
        let tensor: &Tensor = &tensors[k];
        let first: &Tensor = &tensors[0];
        proof {
            assert(tensors@[k as int].wf() && tensors@[0].wf());
            assert(args.take(k + 1).drop_last() =~= args.take(k as int));
            assert(args.take(k + 1).last() == tensor@);
            assert(args[k as int] == tensor@ && args[0] == first@);
        }
        if !first.same_graph(tensor) {
            proof {
                lemma_join_error(args, axis, k as nat + 1, args.len());
            }
            return Err(err("cross-graph operands"));
        }
        if !same_except(tensor.shape(), first.shape(), axis) {
            proof {
                lemma_join_error(args, axis, k as nat + 1, args.len());
            }
            return Err(err("concatenate non-axis dimensions must match"));
        }
        let size: i64 = tensor.shape()[axis];
        proof {
            lemma_volume_nonnegative(tensor@.dims);
        }
        total = match total.checked_add(size) {
            Some(sum) => sum,
            None => {
                proof {
                    assert(axis_total(args.take(k + 1), axis) > i64::MAX);
                    lemma_join_error(args, axis, k as nat + 1, args.len());
                }
                return Err(err("concatenate dimension overflow"));
            },
        };
        k += 1;
    }
    assert(args.take(k as int) =~= args);
    Ok(total)
}

/// Whether tensors can be stacked, or why not.
fn check_stackable(tensors: &[Tensor]) -> (r: Result<(), Error>)
    requires
        tensors@.len() > 0,
        forall|k: int| 0 <= k < tensors@.len() ==> #[trigger] tensors@[k].wf(),
    ensures
        match r {
            Ok(_) => {
                let args = values_of(tensors@);
                &&& stack_error(args, args.len()) is None
                &&& forall|j: int|
                    0 <= j < args.len() ==> (#[trigger] args[j]).dims == args[0].dims
                        && args[j].graph == args[0].graph
            },
            Err(e) => stack_error(values_of(tensors@), tensors@.len()) == Some(e),
        },
{
    let ghost args = values_of(tensors@);
    let mut k: usize = 0;
    while k < tensors.len()
        invariant
            tensors@.len() > 0,
            forall|j: int| 0 <= j < tensors@.len() ==> #[trigger] tensors@[j].wf(),
            args == values_of(tensors@),
            k <= tensors@.len(),
            stack_error(args, k as nat) is None,
            forall|j: int|
                0 <= j < k ==> (#[trigger] args[j]).dims == args[0].dims && args[j].graph
                    == args[0].graph,
        decreases tensors@.len() - k,
    {
        let tensor: &Tensor = &tensors[k];
        let first: &Tensor = &tensors[0];
        assert(tensors@[k as int].wf() && tensors@[0].wf());
        assert(args[k as int] == tensor@ && args[0] == first@);
        if !same_dims(tensor.shape(), first.shape()) {
            proof {
                lemma_stack_error(args, k as nat + 1, args.len());
            }
            return Err(err("stack requires identical input shapes"));
        }
        if !first.same_graph(tensor) {
            proof {
                lemma_stack_error(args, k as nat + 1, args.len());
            }
            return Err(err("cross-graph stack operands"));
        }
        k += 1;
    }
    Ok(())
}

/// A unit axis inserted into each tensor.
fn unsqueeze_all(graph: &mut Graph, tensors: &[Tensor], axis: usize) -> (r: Result<
    Vec<Tensor>,
    Error,
>)
    requires
        old(graph).wf(),
        forall|k: int| 0 <= k < tensors@.len() ==> #[trigger] old(graph).owns(tensors@[k]),
    ensures
        final(graph).extends(*old(graph)),
        final(graph).yields_all(
            r,
            collect(
                Seq::new(
                    values_of(tensors@).len(),
                    |k: int| Expr::Is(values_of(tensors@)[k]).unsqueeze(axis),
                ),
            ),
        ),
{
    let ghost args = values_of(tensors@);
    let ghost parts = Seq::new(args.len(), |k: int| Expr::Is(args[k]).unsqueeze(axis));
    let mut expanded: Vec<Tensor> = Vec::new();
    let mut i: usize = 0;
    while i < tensors.len()
        invariant
            graph.extends(*old(graph)),
            forall|k: int| 0 <= k < tensors@.len() ==> #[trigger] old(graph).owns(tensors@[k]),
            args == values_of(tensors@),
            parts == Seq::new(args.len(), |k: int| Expr::Is(args[k]).unsqueeze(axis)),
            i <= tensors@.len(),
            expanded@.len() == i,
            forall|j: int| 0 <= j < i ==> #[trigger] graph.owns(expanded@[j]),
            forall|j: int| 0 <= j < i ==> #[trigger] parts[j] == Expr::Is(expanded@[j]@),
        decreases tensors@.len() - i,
    {
        let ghost before = *graph;
        assert(old(graph).owns(tensors@[i as int]));
        assert(graph.admits(tensors@[i as int]));
        match tensors[i].unsqueeze(graph, axis) {
            Ok(piece) => {
                proof {
                    assert forall|j: int| 0 <= j < i implies #[trigger] graph.owns(
                        expanded@[j],
                    ) by {
                        assert(before.owns(expanded@[j]));
                        assert(graph.admits(expanded@[j]));
                    }
                    assert(parts[i as int] == Expr::Is(piece@));
                }
                expanded.push(piece);
            },
            Err(e) => {
                proof {
                    assert(parts[i as int] == Expr::Fails(e));
                    lemma_collect_err(parts, i as int, e);
                }
                return Err(e);
            },
        }
        i += 1;
    }
    proof {
        lemma_collect_ok(parts, values_of(expanded@));
    }
    Ok(expanded)
}

/// A list that collects has as many values as parts.
pub proof fn lemma_collect_len(parts: Seq<Expr>)
    ensures
        collect(parts) matches Ok(values) ==> values.len() == parts.len(),
    decreases parts.len(),
{
    if parts.len() > 0 {
        lemma_collect_len(parts.drop_last());
    }
}

/// A reason found early is the reason in the end.
proof fn lemma_join_error(args: Seq<Value>, axis: usize, early: nat, count: nat)
    requires
        early <= count,
        join_error(args, axis, early) is Some,
    ensures
        join_error(args, axis, count) == join_error(args, axis, early),
    decreases count,
{
    if early < count {
        lemma_join_error(args, axis, early, (count - 1) as nat);
    }
}

/// A reason found early is the reason in the end.
proof fn lemma_stack_error(args: Seq<Value>, early: nat, count: nat)
    requires
        early <= count,
        stack_error(args, early) is Some,
    ensures
        stack_error(args, count) == stack_error(args, early),
    decreases count,
{
    if early < count {
        lemma_stack_error(args, early, (count - 1) as nat);
    }
}

/// The dynamic starts and sizes fit, or why they are refused.
fn check_dynamic(graph: u64, dims: &[i64], starts: &[Tensor], sizes: &[i64]) -> (r: Result<
    (),
    Error,
>)
    requires
        forall|k: int| 0 <= k < starts@.len() ==> #[trigger] starts@[k].wf(),
    ensures
        match r {
            Ok(_) => dynamic_error(graph, dims@, values_of(starts@), sizes@) is None,
            Err(e) => dynamic_error(graph, dims@, values_of(starts@), sizes@) == Some(e),
        },
{
    let ghost args = values_of(starts@);
    if starts.len() != dims.len() || sizes.len() != dims.len() {
        return Err(err("dynamic slicing requires one index and size per axis"));
    }
    let mut integer: bool = true;
    let mut flat: bool = true;
    let mut local: bool = true;
    let mut fits: bool = true;
    let mut k: usize = 0;
    while k < starts.len()
        invariant
            forall|j: int| 0 <= j < starts@.len() ==> #[trigger] starts@[j].wf(),
            starts@.len() == dims@.len() == sizes@.len(),
            args == values_of(starts@),
            k <= starts@.len(),
            integer == !exists|i: int| 0 <= i < k && (#[trigger] args[i]).dtype != DType::I32,
            flat == !exists|i: int| 0 <= i < k && (#[trigger] args[i]).dims.len() != 0,
            local == !exists|i: int| 0 <= i < k && (#[trigger] args[i]).graph != graph,
            fits == !exists|i: int|
                0 <= i < k && ((#[trigger] sizes@[i]) < 0 || sizes@[i] > dims@[i]),
        decreases starts@.len() - k,
    {
        assert(starts@[k as int].wf());
        let start: &Tensor = &starts[k];
        assert(args[k as int] == start@);
        if start.dtype() != DType::I32 {
            integer = false;
        }
        if start.shape().len() != 0 {
            flat = false;
        }
        if start.graph_id() != graph {
            local = false;
        }
        if sizes[k] < 0 || sizes[k] > dims[k] {
            assert(sizes@[k as int] < 0 || sizes@[k as int] > dims@[k as int]);
            fits = false;
        }
        k += 1;
    }
    if !integer {
        return Err(err("dynamic slice starts must be I32"));
    }
    if !flat {
        return Err(err("dynamic slice starts must be scalar"));
    }
    if !local {
        return Err(err("cross-graph index"));
    }
    if !fits {
        return Err(err("dynamic slice size must be within operand dimensions"));
    }
    Ok(())
}

/// Handles followed by a copy of a list of handles.
fn with_starts(mut operands: Vec<Tensor>, starts: &[Tensor]) -> (r: Vec<Tensor>)
    ensures
        values_of(r@) == values_of(operands@) + values_of(starts@),
        forall|g: Graph, k: int|
            0 <= k < r@.len() && (forall|j: int| 0 <= j < operands@.len() ==> g.owns(operands@[j]))
                && (forall|j: int| 0 <= j < starts@.len() ==> g.owns(starts@[j]))
                ==> #[trigger] g.owns(r@[k]),
{
    let ghost first = operands@;
    let mut k: usize = 0;
    while k < starts.len()
        invariant
            k <= starts@.len(),
            operands@.len() == first.len() + k,
            forall|j: int| 0 <= j < first.len() ==> #[trigger] operands@[j] == first[j],
            forall|j: int|
                first.len() <= j < first.len() + k ==> (#[trigger] operands@[j])@ == starts@[j
                    - first.len()]@ && operands@[j].id() == starts@[j - first.len()].id() && (
                starts@[j - first.len()].wf() ==> operands@[j].wf()),
        decreases starts@.len() - k,
    {
        operands.push(starts[k].copy());
        k += 1;
    }
    assert(values_of(operands@) =~= values_of(first) + values_of(starts@));
    operands
}

/// The extents after padding, or the refusal.
fn padded_extents(dims: &[i64], padding: &[Widths]) -> (r: Result<Vec<i64>, Error>)
    requires
        volume(dims@) is Some,
    ensures
        match r {
            Ok(extents) => padding_shape(dims@, padding@) == Ok::<Seq<i64>, Error>(extents@)
                && padding_fits(dims@, padding@) && extents@ == padded(dims@, padding@),
            Err(e) => padding_shape(dims@, padding@) == Err::<Seq<i64>, Error>(e),
        },
{
    if padding.len() != dims.len() {
        return Err(err("pad requires one low/high pair per axis"));
    }
    proof {
        lemma_volume_nonnegative(dims@);
    }
    let mut extents: Vec<i64> = Vec::new();
    let mut i: usize = 0;
    while i < padding.len()
        invariant
            padding@.len() == dims@.len(),
            forall|j: int| 0 <= j < dims@.len() ==> #[trigger] dims@[j] >= 0,
            i <= padding@.len(),
            extents@.len() == i,
            pad_error(dims@, padding@, i as nat) is None,
            forall|j: int|
                0 <= j < i ==> (#[trigger] padding@[j]).0 >= 0 && padding@[j].1 >= 0 && dims@[j]
                    + padding@[j].0 + padding@[j].1 <= i64::MAX,
            forall|j: int| 0 <= j < i ==> #[trigger] extents@[j] == padded(dims@, padding@)[j],
        decreases padding@.len() - i,
    {
        let (low, high): (i64, i64) = padding[i];
        let size: i64 = dims[i];
        if low < 0 || high < 0 {
            proof {
                lemma_pad_error(dims@, padding@, i as nat + 1, padding@.len());
            }
            return Err(err("pad widths must be nonnegative; use slice for cropping"));
        }
        let partial: Option<i64> = size.checked_add(low);
        let sum: Option<i64> = match partial {
            Some(partial) => partial.checked_add(high),
            None => None,
        };
        match sum {
            Some(extent) => {
                extents.push(extent);
            },
            None => {
                proof {
                    assert(dims@[i as int] + padding@[i as int].0 + padding@[i as int].1
                        > i64::MAX);
                    lemma_pad_error(dims@, padding@, i as nat + 1, padding@.len());
                }
                return Err(err("padded dimension overflow"));
            },
        }
        i += 1;
    }
    assert(extents@ =~= padded(dims@, padding@));
    match elements(extents.as_slice()) {
        Err(e) => Err(e),
        Ok(_) => Ok(extents),
    }
}

/// A reason found early is the reason in the end.
proof fn lemma_pad_error(dims: Seq<i64>, padding: Seq<Widths>, early: nat, count: nat)
    requires
        early <= count,
        pad_error(dims, padding, early) is Some,
    ensures
        pad_error(dims, padding, count) == pad_error(dims, padding, early),
    decreases count,
{
    if early < count {
        lemma_pad_error(dims, padding, early, (count - 1) as nat);
    }
}

/// An axis extended once stays failed or keeps growing axis by axis.
proof fn lemma_extended_failure(
    x: Value,
    padding: Seq<Widths>,
    early: nat,
    count: nat,
    reflect: bool,
)
    requires
        early <= count,
        extended(x, padding, early, reflect) is Fails,
    ensures
        extended(x, padding, count, reflect) == extended(x, padding, early, reflect),
    decreases count,
{
    if early < count {
        lemma_extended_failure(x, padding, early, (count - 1) as nat, reflect);
    }
}

/// The values of up to three pieces, the outer ones optional.
proof fn lemma_three_pieces(
    head: Seq<Expr>,
    middle: Expr,
    tail: Seq<Expr>,
    values: Seq<Value>,
)
    requires
        values.len() == head.len() + 1 + tail.len(),
        forall|k: int| 0 <= k < head.len() ==> #[trigger] head[k] == Expr::Is(values[k]),
        middle == Expr::Is(values[head.len() as int]),
        forall|k: int|
            0 <= k < tail.len() ==> #[trigger] tail[k] == Expr::Is(values[head.len() + 1 + k]),
    ensures
        collect(head + seq![middle] + tail) == Ok::<Seq<Value>, Error>(values),
{
    lemma_collect_ok(head + seq![middle] + tail, values);
}

/// The requested sizes, added up from the left.
fn total_of(sizes: &[i64]) -> (r: Option<i64>)
    ensures
        match r {
            Some(total) => sizes_total(sizes@) == Some(total as int),
            None => sizes_total(sizes@) is None,
        },
{
    let mut total: i64 = 0;
    let mut i: usize = 0;
    assert(sizes@.take(0) =~= Seq::<i64>::empty());
    while i < sizes.len()
        invariant
            i <= sizes@.len(),
            total >= 0,
            sizes_total(sizes@.take(i as int)) == Some(total as int),
        decreases sizes@.len() - i,
    {
        proof {
            assert(sizes@.take(i + 1).drop_last() =~= sizes@.take(i as int));
            assert(sizes@.take(i + 1).last() == sizes@[i as int]);
        }
        if sizes[i] < 0 {
            proof {
                lemma_sizes_prefix(sizes@, i + 1);
            }
            return None;
        }
        total = match total.checked_add(sizes[i]) {
            Some(sum) => sum,
            None => {
                proof {
                    lemma_sizes_prefix(sizes@, i + 1);
                }
                return None;
            },
        };
        i += 1;
    }
    assert(sizes@.take(i as int) =~= sizes@);
    Some(total)
}

/// A list of sizes has no total where one of its prefixes has none.
pub proof fn lemma_sizes_prefix(sizes: Seq<i64>, length: int)
    requires
        0 <= length <= sizes.len(),
    ensures
        sizes_total(sizes.take(length)) is None ==> sizes_total(sizes) is None,
        sizes_total(sizes) matches Some(total) ==> sizes_total(sizes.take(length)) matches Some(
            part,
        ) && 0 <= part <= total <= i64::MAX,
    decreases sizes.len(),
{
    if length == sizes.len() {
        assert(sizes.take(length) =~= sizes);
        if sizes.len() > 0 {
            lemma_sizes_prefix(sizes.drop_last(), sizes.len() - 1);
            assert(sizes.drop_last().take(sizes.len() - 1) =~= sizes.drop_last());
        }
    } else {
        assert(sizes.drop_last().take(length) =~= sizes.take(length));
        lemma_sizes_prefix(sizes.drop_last(), length);
    }
}

/// The extents with one axis replaced by other extents.
fn replaced_axis(dims: &[i64], inner: &[i64], axis: usize) -> (r: Vec<i64>)
    requires
        axis < dims@.len(),
    ensures
        r@ == taken(dims@, inner@, axis),
{
    let rank: usize = dims.len();
    let mut result: Vec<i64> = Vec::new();
    let mut i: usize = 0;
    while i < axis
        invariant
            i <= axis < dims@.len(),
            result@ == dims@.take(i as int),
        decreases axis - i,
    {
        result.push(dims[i]);
        assert(result@ =~= dims@.take(i + 1));
        i += 1;
    }
    let mut j: usize = 0;
    while j < inner.len()
        invariant
            axis < dims@.len(),
            j <= inner@.len(),
            result@ == dims@.take(axis as int) + inner@.take(j as int),
        decreases inner@.len() - j,
    {
        result.push(inner[j]);
        assert(result@ =~= dims@.take(axis as int) + inner@.take(j + 1));
        j += 1;
    }
    assert(inner@.take(j as int) =~= inner@);
    let mut k: usize = axis + 1;
    while k < rank
        invariant
            axis < k <= rank == dims@.len(),
            result@ == dims@.take(axis as int) + inner@ + dims@.subrange(axis as int + 1, k as int),
        decreases dims@.len() - k,
    {
        result.push(dims[k]);
        assert(result@ =~= dims@.take(axis as int) + inner@ + dims@.subrange(
            axis as int + 1,
            k as int + 1,
        ));
        k += 1;
    }
    assert(result@ =~= taken(dims@, inner@, axis));
    result
}

impl Tensor {
    /// Static slices of every axis.
    pub(crate) fn sliced(
        &self,
        graph: &mut Graph,
        axes: Vec<SliceAxis>,
    ) -> (r: Result<Tensor, Error>)
        requires
            old(graph).wf(),
            old(graph).owns(*self),
            axes@.len() == self@.dims.len(),
        ensures
            final(graph).extends(*old(graph)),
            final(graph).yields(r, self.expr().sliced(axes@)),
            final(graph).records(*old(graph), r),
    {
        match slice_axes(self.shape(), axes.as_slice()) {
            Err(e) => Err(e),
            Ok(dims) => graph.node1(Op::Slice(axes), self, dims.as_slice()),
        }
    }

    /// Static, half-open slicing on every axis. Strides must be positive;
    /// negative indexing and bound clipping are not performed.
    pub fn slice(
        &self,
        graph: &mut Graph,
        starts: &[i64],
        limits: &[i64],
        strides: &[i64],
    ) -> (r: Result<Tensor, Error>)
        requires
            old(graph).wf(),
            old(graph).owns(*self),
        ensures
            final(graph).extends(*old(graph)),
            final(graph).yields(r, self.expr().slice(starts@, limits@, strides@)),
            final(graph).records(*old(graph), r),
    {
        let rank: usize = self.shape().len();
        if starts.len() != rank || limits.len() != rank || strides.len() != rank {
            return Err(err("slice requires one start, limit and stride per axis"));
        }
        let mut axes: Vec<SliceAxis> = Vec::new();
        let mut i: usize = 0;
        while i < rank
            invariant
                i <= rank,
                starts@.len() == rank,
                limits@.len() == rank,
                strides@.len() == rank,
                axes@.len() == i,
                forall|j: int|
                    0 <= j < i ==> #[trigger] axes@[j] == slices_of(starts@, limits@, strides@)[j],
            decreases rank - i,
        {
            axes.push(SliceAxis { start: starts[i], limit: limits[i], stride: strides[i] });
            i += 1;
        }
        assert(axes@ =~= slices_of(starts@, limits@, strides@));
        self.sliced(graph, axes)
    }

    /// Select a contiguous region along one axis; the axis is retained.
    pub fn narrow(
        &self,
        graph: &mut Graph,
        axis: usize,
        start: i64,
        length: i64,
    ) -> (r: Result<Tensor, Error>)
        requires
            old(graph).wf(),
            old(graph).owns(*self),
        ensures
            final(graph).extends(*old(graph)),
            final(graph).yields(r, self.expr().narrow(axis, start, length)),
            final(graph).records(*old(graph), r),
    {
        proof {
            reveal(Expr::narrow);
        }
        let rank: usize = self.shape().len();
        if axis >= rank || length < 0 {
            return Err(err("invalid narrow axis or length"));
        }
        let end: i64 = match start.checked_add(length) {
            Some(end) => end,
            None => {
                return Err(err("narrow bounds overflow"));
            },
        };
        let mut axes: Vec<SliceAxis> = Vec::new();
        let mut i: usize = 0;
        while i < rank
            invariant
                i <= rank == self@.dims.len(),
                self.wf(),
                end == start + length,
                axes@.len() == i,
                forall|j: int|
                    0 <= j < i ==> #[trigger] axes@[j] == narrowing(self@.dims, axis, start, length)[j],
            decreases rank - i,
        {
            if i == axis {
                axes.push(SliceAxis { start, limit: end, stride: 1 });
            } else {
                axes.push(SliceAxis { start: 0, limit: self.shape()[i], stride: 1 });
            }
            i += 1;
        }
        assert(axes@ =~= narrowing(self@.dims, axis, start, length));
        self.sliced(graph, axes)
    }

    /// A bitwise operation on I32 patterns.
    fn integer_binary(
        &self,
        graph: &mut Graph,
        rhs: &Tensor,
        op: IntegerBinary,
    ) -> (r: Result<Tensor, Error>)
        requires
            old(graph).wf(),
            old(graph).owns(*self),
            old(graph).admits(*rhs),
        ensures
            final(graph).extends(*old(graph)),
            final(graph).yields(r, self.expr().integer_binary(rhs.expr(), op)),
            final(graph).records(*old(graph), r),
    {
        if self.dtype() != DType::I32 || rhs.dtype() != DType::I32 {
            return Err(err("integer bitwise operands must be I32"));
        }
        if !self.same_graph(rhs) || !same_dims(self.shape(), rhs.shape()) {
            return Err(err("integer bitwise operands must match graph and shape"));
        }
        graph.index2(Op::IntegerBinary(op), self, rhs, self.shape())
    }

    /// Elementwise AND on I32 bit patterns.
    pub fn bitwise_and(
        &self,
        graph: &mut Graph,
        rhs: &Tensor,
    ) -> (r: Result<Tensor, Error>)
        requires
            old(graph).wf(),
            old(graph).owns(*self),
            old(graph).admits(*rhs),
        ensures
            final(graph).extends(*old(graph)),
            final(graph).yields(r, self.expr().bitwise_and(rhs.expr())),
            final(graph).records(*old(graph), r),
    {
        self.integer_binary(graph, rhs, IntegerBinary::And)
    }

    /// Elementwise OR on I32 bit patterns.
    pub fn bitwise_or(
        &self,
        graph: &mut Graph,
        rhs: &Tensor,
    ) -> (r: Result<Tensor, Error>)
        requires
            old(graph).wf(),
            old(graph).owns(*self),
            old(graph).admits(*rhs),
        ensures
            final(graph).extends(*old(graph)),
            final(graph).yields(r, self.expr().bitwise_or(rhs.expr())),
            final(graph).records(*old(graph), r),
    {
        self.integer_binary(graph, rhs, IntegerBinary::Or)
    }

    /// Elementwise XOR on I32 bit patterns.
    pub fn bitwise_xor(
        &self,
        graph: &mut Graph,
        rhs: &Tensor,
    ) -> (r: Result<Tensor, Error>)
        requires
            old(graph).wf(),
            old(graph).owns(*self),
            old(graph).admits(*rhs),
        ensures
            final(graph).extends(*old(graph)),
            final(graph).yields(r, self.expr().bitwise_xor(rhs.expr())),
            final(graph).records(*old(graph), r),
    {
        self.integer_binary(graph, rhs, IntegerBinary::Xor)
    }

    /// A scalar I32 constant broadcast to the extents of this tensor.
    pub(crate) fn filled_i32(
        &self,
        graph: &mut Graph,
        value: i32,
    ) -> (r: Result<Tensor, Error>)
        requires
            old(graph).wf(),
            old(graph).owns(*self),
        ensures
            final(graph).extends(*old(graph)),
            final(graph).yields(r, self.expr().filled_i32(value)),
    {
        let constant: Tensor = graph.scalar_i32(value)?;
        constant.broadcast_to(graph, self.shape())
    }

    /// Complement every bit, preserving the I32 representation.
    pub fn bitwise_not(
        &self,
        graph: &mut Graph,
    ) -> (r: Result<Tensor, Error>)
        requires
            old(graph).wf(),
            old(graph).owns(*self),
        ensures
            final(graph).extends(*old(graph)),
            final(graph).yields(r, self.expr().bitwise_not()),
    {
        let ones: Tensor = self.filled_i32(graph, -1)?;
        self.bitwise_xor(graph, &ones)
    }

    /// A shift of I32 patterns by a constant count.
    fn shift(
        &self,
        graph: &mut Graph,
        bits: u32,
        op: IntegerBinary,
    ) -> (r: Result<Tensor, Error>)
        requires
            old(graph).wf(),
            old(graph).owns(*self),
        ensures
            final(graph).extends(*old(graph)),
            final(graph).yields(r, self.expr().shift(bits, op)),
    {
        if bits >= 32 {
            return Err(err("I32 shift count must be less than 32"));
        }
        let count: Tensor = self.filled_i32(graph, bits as i32)?;
        self.integer_binary(graph, &count, op)
    }

    /// Left shift by a constant count below 32; high bits are discarded.
    pub fn shift_left(
        &self,
        graph: &mut Graph,
        bits: u32,
    ) -> (r: Result<Tensor, Error>)
        requires
            old(graph).wf(),
            old(graph).owns(*self),
        ensures
            final(graph).extends(*old(graph)),
            final(graph).yields(r, self.expr().shift_left(bits)),
    {
        self.shift(graph, bits, IntegerBinary::ShiftLeft)
    }

    /// Right shift with zero fill, also of negative inputs.
    pub fn shift_right_logical(
        &self,
        graph: &mut Graph,
        bits: u32,
    ) -> (r: Result<Tensor, Error>)
        requires
            old(graph).wf(),
            old(graph).owns(*self),
        ensures
            final(graph).extends(*old(graph)),
            final(graph).yields(r, self.expr().shift_right_logical(bits)),
    {
        self.shift(graph, bits, IntegerBinary::ShiftRightLogical)
    }

    /// Right shift with sign extension.
    pub fn shift_right_arithmetic(
        &self,
        graph: &mut Graph,
        bits: u32,
    ) -> (r: Result<Tensor, Error>)
        requires
            old(graph).wf(),
            old(graph).owns(*self),
        ensures
            final(graph).extends(*old(graph)),
            final(graph).yields(r, self.expr().shift_right_arithmetic(bits)),
    {
        self.shift(graph, bits, IntegerBinary::ShiftRightArithmetic)
    }

    /// Explicit I32 or BF16 to F32 conversion, not a bitcast; F32 is identity.
    pub fn to_f32(
        &self,
        graph: &mut Graph,
    ) -> (r: Result<Tensor, Error>)
        requires
            old(graph).wf(),
            old(graph).owns(*self),
        ensures
            final(graph).extends(*old(graph)),
            final(graph).yields(r, self.expr().to_f32()),
            final(graph).keeps_or_records(*old(graph), r),
    {
        match self.dtype() {
            DType::F32 => Ok(self.copy()),
            DType::I32 => graph.node1(Op::IndexToFloat, self, self.shape()),
            DType::BF16 => graph.node1(Op::Bf16ToFloat, self, self.shape()),
            dtype => Err(Error::CannotConvert { dtype }),
        }
    }

    /// Elementwise I32 arithmetic modulo 2^32.
    fn arithmetic(
        &self,
        graph: &mut Graph,
        rhs: &Tensor,
        op: Binary,
    ) -> (r: Result<Tensor, Error>)
        requires
            old(graph).wf(),
            old(graph).owns(*self),
            old(graph).admits(*rhs),
        ensures
            final(graph).extends(*old(graph)),
            final(graph).yields(r, self.expr().arithmetic(rhs.expr(), op)),
            final(graph).records(*old(graph), r),
    {
        if self.dtype() != DType::I32 || rhs.dtype() != DType::I32 {
            return Err(err("wrapping arithmetic operands must be I32"));
        }
        if !self.same_graph(rhs) {
            return Err(err("cross-graph index arithmetic"));
        }
        if !same_dims(self.shape(), rhs.shape()) {
            return Err(err("index arithmetic shape mismatch; broadcast explicitly"));
        }
        graph.index2(Op::Binary(op), self, rhs, self.shape())
    }

    /// Elementwise I32 addition modulo 2^32.
    pub fn wrapping_add(
        &self,
        graph: &mut Graph,
        rhs: &Tensor,
    ) -> (r: Result<Tensor, Error>)
        requires
            old(graph).wf(),
            old(graph).owns(*self),
            old(graph).admits(*rhs),
        ensures
            final(graph).extends(*old(graph)),
            final(graph).yields(r, self.expr().wrapping_add(rhs.expr())),
            final(graph).records(*old(graph), r),
    {
        self.arithmetic(graph, rhs, Binary::Add)
    }

    /// Elementwise I32 subtraction modulo 2^32.
    pub fn wrapping_sub(
        &self,
        graph: &mut Graph,
        rhs: &Tensor,
    ) -> (r: Result<Tensor, Error>)
        requires
            old(graph).wf(),
            old(graph).owns(*self),
            old(graph).admits(*rhs),
        ensures
            final(graph).extends(*old(graph)),
            final(graph).yields(r, self.expr().wrapping_sub(rhs.expr())),
            final(graph).records(*old(graph), r),
    {
        self.arithmetic(graph, rhs, Binary::Sub)
    }

    /// Elementwise I32 multiplication modulo 2^32.
    pub fn wrapping_mul(
        &self,
        graph: &mut Graph,
        rhs: &Tensor,
    ) -> (r: Result<Tensor, Error>)
        requires
            old(graph).wf(),
            old(graph).owns(*self),
            old(graph).admits(*rhs),
        ensures
            final(graph).extends(*old(graph)),
            final(graph).yields(r, self.expr().wrapping_mul(rhs.expr())),
            final(graph).records(*old(graph), r),
    {
        self.arithmetic(graph, rhs, Binary::Mul)
    }

    /// Offset every index by a constant, wrapping on I32 overflow.
    pub fn wrapping_add_scalar(
        &self,
        graph: &mut Graph,
        value: i32,
    ) -> (r: Result<Tensor, Error>)
        requires
            old(graph).wf(),
            old(graph).owns(*self),
        ensures
            final(graph).extends(*old(graph)),
            final(graph).yields(r, self.expr().wrapping_add_scalar(value)),
    {
        proof {
            reveal(Expr::wrapping_add_scalar);
        }
        let addend: Tensor = self.filled_i32(graph, value)?;
        self.wrapping_add(graph, &addend)
    }

    /// Index of the first maximum along an axis, as an I32 tensor. Ties choose
    /// the lowest index; the first NaN wins.
    pub fn argmax(
        &self,
        graph: &mut Graph,
        axis: usize,
        keep_dims: bool,
    ) -> (r: Result<Tensor, Error>)
        requires
            old(graph).wf(),
            old(graph).owns(*self),
        ensures
            final(graph).extends(*old(graph)),
            final(graph).yields(r, self.expr().argmax(axis, keep_dims)),
    {
        if axis >= self.shape().len() || self.shape()[axis] <= 0 || self.shape()[axis]
            > i32::MAX as i64 {
            return Err(err("argmax requires a nonempty axis with I32-sized length"));
        }
        let mut dims: Vec<i64> = vstd::slice::slice_to_vec(self.shape());
        dims.remove(axis);
        let value: Tensor = graph.index1(Op::ArgMax { axis }, self, dims.as_slice())?;
        if keep_dims {
            dims.insert(axis, 1);
            value.reshape(graph, dims.as_slice())
        } else {
            Ok(value)
        }
    }

    /// Insert a size-one axis at `axis`, zero through rank inclusive.
    pub fn unsqueeze(
        &self,
        graph: &mut Graph,
        axis: usize,
    ) -> (r: Result<Tensor, Error>)
        requires
            old(graph).wf(),
            old(graph).owns(*self),
        ensures
            final(graph).extends(*old(graph)),
            final(graph).yields(r, self.expr().unsqueeze(axis)),
            final(graph).records(*old(graph), r),
    {
        if axis > self.shape().len() {
            return Err(err("unsqueeze axis out of range"));
        }
        let mut dims: Vec<i64> = vstd::slice::slice_to_vec(self.shape());
        dims.insert(axis, 1);
        self.reshape(graph, dims.as_slice())
    }

    /// Remove one size-one axis; other singletons are preserved.
    pub fn squeeze(
        &self,
        graph: &mut Graph,
        axis: usize,
    ) -> (r: Result<Tensor, Error>)
        requires
            old(graph).wf(),
            old(graph).owns(*self),
        ensures
            final(graph).extends(*old(graph)),
            final(graph).yields(r, self.expr().squeeze(axis)),
            final(graph).records(*old(graph), r),
    {
        if axis >= self.shape().len() || self.shape()[axis] != 1 {
            return Err(err("squeeze requires a valid size-one axis"));
        }
        let mut dims: Vec<i64> = vstd::slice::slice_to_vec(self.shape());
        dims.remove(axis);
        self.reshape(graph, dims.as_slice())
    }

    /// Join tensors along an existing axis. Other dimensions must match.
    pub fn concatenate(
        graph: &mut Graph,
        tensors: &[Tensor],
        axis: usize,
    ) -> (r: Result<Tensor, Error>)
        requires
            old(graph).wf(),
            old(graph).admits_all(tensors@),
            tensors@.len() > 0 ==> old(graph).owns(tensors@[0]),
        ensures
            final(graph).extends(*old(graph)),
            final(graph).yields(r, concatenated(values_of(tensors@), axis)),
            final(graph).keeps_or_records(*old(graph), r),
    {
        proof {
            reveal(concatenated);
        }
        let ghost args = values_of(tensors@);
        if tensors.len() == 0 {
            return Err(err("concatenate requires tensors"));
        }
        let first: &Tensor = &tensors[0];
        assert(graph.owns(tensors@[0]));
        assert forall|k: int| 0 <= k < tensors@.len() implies #[trigger] tensors@[k].wf() by {
            assert(graph.admits(tensors@[k]));
        }
        if axis >= first.shape().len() {
            return Err(err("concatenate axis out of range"));
        }
        let total: i64 = joined_extent(tensors, axis)?;
        if tensors.len() == 1 {
            return Ok(first.copy());
        }
        let mut dims: Vec<i64> = vstd::slice::slice_to_vec(first.shape());
        dims.set(axis, total);
        proof {
            assert forall|j: int| 0 <= j < tensors@.len() implies #[trigger] graph.owns(tensors@[j]) by {
                assert(graph.admits(tensors@[j]));
                assert(args[j].graph == args[0].graph);
            }
            assert forall|j: int| 0 <= j < args.len() implies agree_except(
                (#[trigger] args[j]).dims,
                dims@,
                axis,
            ) by {}
            assert(dims@[axis as int] == total);
        }
        graph.node_list(Op::Concatenate { axis }, tensors, dims.as_slice())
    }

    /// Join equal-shaped tensors along a new axis, zero through input rank.
    pub fn stack(
        graph: &mut Graph,
        tensors: &[Tensor],
        axis: usize,
    ) -> (r: Result<Tensor, Error>)
        requires
            old(graph).wf(),
            old(graph).admits_all(tensors@),
            tensors@.len() > 0 ==> old(graph).owns(tensors@[0]),
        ensures
            final(graph).extends(*old(graph)),
            final(graph).yields(r, stacked(values_of(tensors@), axis)),
    {
        proof {
            reveal(stacked);
        }
        if tensors.len() == 0 {
            return Err(err("stack requires tensors"));
        }
        let first: &Tensor = &tensors[0];
        assert(graph.owns(tensors@[0]));
        assert forall|k: int| 0 <= k < tensors@.len() implies #[trigger] tensors@[k].wf() by {
            assert(graph.admits(tensors@[k]));
        }
        if axis > first.shape().len() {
            return Err(err("stack axis out of range"));
        }
        check_stackable(tensors)?;
        proof {
            assert forall|j: int| 0 <= j < tensors@.len() implies #[trigger] graph.owns(tensors@[j]) by {
                assert(graph.admits(tensors@[j]));
                assert(values_of(tensors@)[j].graph == values_of(tensors@)[0].graph);
            }
        }
        let expanded: Vec<Tensor> = unsqueeze_all(graph, tensors, axis)?;
        proof {
            assert(values_of(expanded@).len() == tensors@.len()) by {
                lemma_collect_len(
                    Seq::new(
                        values_of(tensors@).len(),
                        |k: int| Expr::Is(values_of(tensors@)[k]).unsqueeze(axis),
                    ),
                );
            }
            assert forall|j: int| 0 <= j < expanded@.len() implies #[trigger] graph.admits(
                expanded@[j],
            ) by {
                assert(graph.owns(expanded@[j]));
            }
            assert(graph.owns(expanded@[0]));
        }
        Tensor::concatenate(graph, expanded.as_slice(), axis)
    }

    /// Remove an axis and return its slices in ascending index order. An empty
    /// axis gives an empty list; scalars and absent axes are rejected.
    pub fn unbind(
        &self,
        graph: &mut Graph,
        axis: usize,
    ) -> (r: Result<Vec<Tensor>, Error>)
        requires
            old(graph).wf(),
            old(graph).owns(*self),
        ensures
            final(graph).extends(*old(graph)),
            final(graph).yields_all(r, unbound(self@, axis)),
    {
        if axis >= self.shape().len() {
            return Err(err("unbind axis out of range"));
        }
        let count: i64 = self.shape()[axis];
        proof {
            lemma_volume_nonnegative(self@.dims);
        }
        let mut dims: Vec<i64> = vstd::slice::slice_to_vec(self.shape());
        dims.remove(axis);
        let ghost parts = Seq::new(
            self@.dims[axis as int] as nat,
            |i: int| Expr::Is(self@).narrow(axis, i as i64, 1).reshape(self@.dims.remove(axis as int)),
        );
        let mut slices: Vec<Tensor> = Vec::new();
        let mut i: i64 = 0;
        while i < count
            invariant
                old(graph).owns(*self),
                graph.extends(*old(graph)),
                axis < self@.dims.len(),
                unbound(self@, axis) == collect(parts),
                dims@ == self@.dims.remove(axis as int),
                0 <= i <= count == parts.len(),
                parts == Seq::new(
                    self@.dims[axis as int] as nat,
                    |i: int|
                        Expr::Is(self@).narrow(axis, i as i64, 1).reshape(self@.dims.remove(axis as int)),
                ),
                slices@.len() == i,
                forall|j: int| 0 <= j < i ==> #[trigger] graph.owns(slices@[j]),
                forall|j: int| 0 <= j < i ==> #[trigger] parts[j] == Expr::Is(slices@[j]@),
            decreases count - i,
        {
            let ghost before = *graph;
            assert(graph.admits(*self));
            assert(parts[i as int] == self.expr().narrow(axis, i, 1).reshape(dims@));
            let part: Tensor = match self.narrow(graph, axis, i, 1) {
                Ok(part) => part,
                Err(e) => {
                    proof {
                        assert(parts[i as int] == Expr::Fails(e));
                        lemma_collect_err(parts, i as int, e);
                    }
                    return Err(e);
                },
            };
            match part.reshape(graph, dims.as_slice()) {
                Ok(slice) => {
                    proof {
                        assert forall|j: int| 0 <= j < i implies #[trigger] graph.owns(slices@[j]) by {
                            assert(before.owns(slices@[j]));
                            assert(graph.admits(slices@[j]));
                        }
                    }
                    slices.push(slice);
                },
                Err(e) => {
                    proof {
                        lemma_collect_err(parts, i as int, e);
                    }
                    return Err(e);
                },
            }
            i += 1;
        }
        proof {
            lemma_collect_ok(parts, values_of(slices@));
        }
        Ok(slices)
    }

    /// Constant edge padding, one low and high width per axis. Widths must be
    /// nonnegative; use `slice` or `narrow` for cropping.
    pub fn pad(
        &self,
        graph: &mut Graph,
        padding: &[Widths],
        value: Scalar,
    ) -> (r: Result<Tensor, Error>)
        requires
            old(graph).wf(),
            old(graph).owns(*self),
        ensures
            final(graph).extends(*old(graph)),
            final(graph).yields(r, self.expr().pad(padding@, value)),
    {
        let dims: Vec<i64> = padded_extents(self.shape(), padding)?;
        if same_dims(dims.as_slice(), self.shape()) {
            return Ok(self.copy());
        }
        let fill: Tensor = graph.scalar(value)?;
        proof {
            reveal(applied);
        }
        graph.node2(Op::Pad(vstd::slice::slice_to_vec(padding)), self, &fill, dims.as_slice())
    }

    /// Edge padding with a same-graph rank-zero tensor. Zero widths return the
    /// input after validating the scalar.
    pub fn pad_with_scalar(
        &self,
        graph: &mut Graph,
        padding: &[Widths],
        fill: &Tensor,
    ) -> (r: Result<Tensor, Error>)
        requires
            old(graph).wf(),
            old(graph).owns(*self),
            old(graph).admits(*fill),
        ensures
            final(graph).extends(*old(graph)),
            final(graph).yields(r, self.expr().pad_with_scalar(padding@, fill.expr())),
            final(graph).keeps_or_records(*old(graph), r),
    {
        if !self.same_graph(fill) || fill.shape().len() != 0 {
            return Err(err("padding fill must be a same-graph scalar"));
        }
        let dims: Vec<i64> = padded_extents(self.shape(), padding)?;
        if same_dims(dims.as_slice(), self.shape()) {
            return Ok(self.copy());
        }
        graph.node2(Op::Pad(vstd::slice::slice_to_vec(padding)), self, fill, dims.as_slice())
    }

    /// One axis extended by copies of its edge elements.
    #[verifier::rlimit(40)]
    fn replicate_axis(
        &self,
        graph: &mut Graph,
        axis: usize,
        widths: Widths,
    ) -> (r: Result<Tensor, Error>)
        requires
            old(graph).wf(),
            old(graph).owns(*self),
            axis < self@.dims.len(),
            widths.0 >= 0,
            widths.1 >= 0,
        ensures
            final(graph).extends(*old(graph)),
            final(graph).yields(r, replicate_axis(self@, axis, widths)),
            r matches Ok(t) ==> t@.dims.len() == self@.dims.len(),
    {
        let (low, high): (i64, i64) = widths;
        if low == 0 && high == 0 {
            return Ok(self.copy());
        }
        let size: i64 = self.shape()[axis];
        proof {
            lemma_volume_nonnegative(self@.dims);
            reveal(applied);
            reveal(concatenated);
        }
        let ghost head: Seq<Expr> = if low > 0 {
            seq![self.expr().narrow(axis, 0, 1).broadcast_to(self@.dims.update(axis as int, low))]
        } else {
            Seq::empty()
        };
        let ghost tail: Seq<Expr> = if high > 0 {
            seq![
                self.expr().narrow(axis, (self@.dims[axis as int] - 1) as i64, 1).broadcast_to(
                    self@.dims.update(axis as int, high),
                ),
            ]
        } else {
            Seq::empty()
        };
        let ghost parts = head + seq![self.expr()] + tail;
        let mut pieces: Vec<Tensor> = Vec::new();
        if low > 0 {
            assert(parts[0] == head[0]);
            let mut dims: Vec<i64> = vstd::slice::slice_to_vec(self.shape());
            dims.set(axis, low);
            let edge: Tensor = match self.narrow(graph, axis, 0, 1) {
                Ok(edge) => edge,
                Err(e) => {
                    proof {
                        lemma_collect_err(parts, 0, e);
                    }
                    return Err(e);
                },
            };
            match edge.broadcast_to(graph, dims.as_slice()) {
                Ok(piece) => {
                    pieces.push(piece);
                },
                Err(e) => {
                    proof {
                        lemma_collect_err(parts, 0, e);
                    }
                    return Err(e);
                },
            }
        }
        pieces.push(self.copy());
        assert(parts[head.len() as int] == self.expr());
        if high > 0 {
            assert(parts[head.len() as int + 1] == tail[0]);
            let mut dims: Vec<i64> = vstd::slice::slice_to_vec(self.shape());
            dims.set(axis, high);
            let last: i64 = size - 1;
            let edge: Tensor = match self.narrow(graph, axis, last, 1) {
                Ok(edge) => edge,
                Err(e) => {
                    proof {
                        lemma_collect_err(parts, head.len() as int + 1, e);
                    }
                    return Err(e);
                },
            };
            match edge.broadcast_to(graph, dims.as_slice()) {
                Ok(piece) => {
                    pieces.push(piece);
                },
                Err(e) => {
                    proof {
                        lemma_collect_err(parts, head.len() as int + 1, e);
                    }
                    return Err(e);
                },
            }
        }
        proof {
            lemma_three_pieces(head, self.expr(), tail, values_of(pieces@));
        }
        Tensor::concatenate(graph, pieces.as_slice(), axis)
    }

    /// One axis extended by its elements mirrored at the edges.
    fn reflect_axis(
        &self,
        graph: &mut Graph,
        axis: usize,
        widths: Widths,
    ) -> (r: Result<Tensor, Error>)
        requires
            old(graph).wf(),
            old(graph).owns(*self),
            axis < self@.dims.len(),
            widths.0 >= 0,
            widths.1 >= 0,
        ensures
            final(graph).extends(*old(graph)),
            final(graph).yields(r, reflect_axis(self@, axis, widths)),
            r matches Ok(t) ==> t@.dims.len() == self@.dims.len(),
    {
        let (low, high): (i64, i64) = widths;
        if low == 0 && high == 0 {
            return Ok(self.copy());
        }
        let size: i64 = self.shape()[axis];
        proof {
            lemma_volume_nonnegative(self@.dims);
            reveal(applied);
            reveal(concatenated);
        }
        let ghost head: Seq<Expr> = if low > 0 {
            seq![self.expr().narrow(axis, 1, low).flip(seq![axis])]
        } else {
            Seq::empty()
        };
        let ghost tail: Seq<Expr> = if high > 0 {
            seq![
                self.expr().narrow(axis, (self@.dims[axis as int] - high - 1) as i64, high).flip(
                    seq![axis],
                ),
            ]
        } else {
            Seq::empty()
        };
        let ghost parts = head + seq![self.expr()] + tail;
        let mut pieces: Vec<Tensor> = Vec::new();
        if low > 0 {
            assert(parts[0] == head[0]);
            let mirrored: Tensor = match self.narrow(graph, axis, 1, low) {
                Ok(mirrored) => mirrored,
                Err(e) => {
                    proof {
                        lemma_collect_err(parts, 0, e);
                    }
                    return Err(e);
                },
            };
            let axes: Vec<usize> = vec![axis];
            assert(axes@ =~= seq![axis]);
            match mirrored.flip(graph, axes.as_slice()) {
                Ok(piece) => {
                    proof {
                        reveal(Expr::narrow);
                    }
                    pieces.push(piece);
                },
                Err(e) => {
                    proof {
                        lemma_collect_err(parts, 0, e);
                    }
                    return Err(e);
                },
            }
        }
        pieces.push(self.copy());
        assert(parts[head.len() as int] == self.expr());
        if high > 0 {
            assert(parts[head.len() as int + 1] == tail[0]);
            let first: i64 = size - high - 1;
            let mirrored: Tensor = match self.narrow(graph, axis, first, high) {
                Ok(mirrored) => mirrored,
                Err(e) => {
                    proof {
                        lemma_collect_err(parts, head.len() as int + 1, e);
                    }
                    return Err(e);
                },
            };
            let axes: Vec<usize> = vec![axis];
            assert(axes@ =~= seq![axis]);
            match mirrored.flip(graph, axes.as_slice()) {
                Ok(piece) => {
                    pieces.push(piece);
                },
                Err(e) => {
                    proof {
                        lemma_collect_err(parts, head.len() as int + 1, e);
                    }
                    return Err(e);
                },
            }
        }
        proof {
            lemma_three_pieces(head, self.expr(), tail, values_of(pieces@));
        }
        Tensor::concatenate(graph, pieces.as_slice(), axis)
    }

    /// The axes extended one after another.
    fn extend_axes(
        &self,
        graph: &mut Graph,
        padding: &[Widths],
        reflect: bool,
    ) -> (r: Result<Tensor, Error>)
        requires
            old(graph).wf(),
            old(graph).owns(*self),
            padding@.len() == self@.dims.len(),
            forall|i: int|
                0 <= i < padding@.len() ==> (#[trigger] padding@[i]).0 >= 0 && padding@[i].1 >= 0,
        ensures
            final(graph).extends(*old(graph)),
            final(graph).yields(r, extended(self@, padding@, padding@.len(), reflect)),
    {
        let mut result: Tensor = self.copy();
        let mut axis: usize = 0;
        while axis < padding.len()
            invariant
                old(graph).owns(*self),
                graph.extends(*old(graph)),
                graph.owns(result),
                padding@.len() == self@.dims.len(),
                result@.dims.len() == self@.dims.len(),
                forall|i: int|
                    0 <= i < padding@.len() ==> (#[trigger] padding@[i]).0 >= 0 && padding@[i].1 >= 0,
                axis <= padding@.len(),
                extended(self@, padding@, axis as nat, reflect) == Expr::Is(result@),
            decreases padding@.len() - axis,
        {
            let widths: Widths = padding[axis];
            let outcome: Result<Tensor, Error> = if reflect {
                result.reflect_axis(graph, axis, widths)
            } else {
                result.replicate_axis(graph, axis, widths)
            };
            match outcome {
                Ok(next) => {
                    result = next;
                },
                Err(e) => {
                    proof {
                        lemma_extended_failure(
                            self@,
                            padding@,
                            (axis + 1) as nat,
                            padding@.len(),
                            reflect,
                        );
                    }
                    return Err(e);
                },
            }
            axis += 1;
        }
        Ok(result)
    }

    /// Replicate the nearest edge value, with nonnegative low and high widths
    /// per axis. A padded axis must be nonempty.
    pub fn pad_replicate(
        &self,
        graph: &mut Graph,
        padding: &[Widths],
    ) -> (r: Result<Tensor, Error>)
        requires
            old(graph).wf(),
            old(graph).owns(*self),
        ensures
            final(graph).extends(*old(graph)),
            final(graph).yields(r, self.expr().pad_replicate(padding@)),
            r is Err ==> *final(graph) == *old(graph),
    {
        match padded_extents(self.shape(), padding) {
            Err(e) => {
                return Err(e);
            },
            Ok(_) => {},
        }
        let mut refused: bool = false;
        let mut i: usize = 0;
        while i < padding.len()
            invariant
                self.wf(),
                padding@.len() == self@.dims.len(),
                i <= padding@.len(),
                refused == exists|j: int|
                    0 <= j < i && self@.dims[j] == 0 && ((#[trigger] padding@[j]).0 != 0
                        || padding@[j].1 != 0),
            decreases padding@.len() - i,
        {
            let (low, high): (i64, i64) = padding[i];
            let size: i64 = self.shape()[i];
            if size == 0 && (low != 0 || high != 0) {
                assert(padding@[i as int] == (low, high));
                refused = true;
            }
            i += 1;
        }
        if refused {
            return Err(err("cannot replicate padding from an empty axis"));
        }
        proof {
            edge_paddings_succeed_unless_refused(self@, padding@);
        }
        self.extend_axes(graph, padding, false)
    }

    /// Reflect across the edge without repeating the edge element. Every
    /// nonzero width must be smaller than its axis.
    pub fn pad_reflect(
        &self,
        graph: &mut Graph,
        padding: &[Widths],
    ) -> (r: Result<Tensor, Error>)
        requires
            old(graph).wf(),
            old(graph).owns(*self),
        ensures
            final(graph).extends(*old(graph)),
            final(graph).yields(r, self.expr().pad_reflect(padding@)),
            r is Err ==> *final(graph) == *old(graph),
    {
        match padded_extents(self.shape(), padding) {
            Err(e) => {
                return Err(e);
            },
            Ok(_) => {},
        }
        let mut refused: bool = false;
        let mut i: usize = 0;
        while i < padding.len()
            invariant
                self.wf(),
                padding@.len() == self@.dims.len(),
                i <= padding@.len(),
                refused == exists|j: int|
                    0 <= j < i && (((#[trigger] padding@[j]).0 > 0 && padding@[j].0 >= self@.dims[j]) || (
                    padding@[j].1 > 0 && padding@[j].1 >= self@.dims[j])),
            decreases padding@.len() - i,
        {
            let (low, high): (i64, i64) = padding[i];
            let size: i64 = self.shape()[i];
            if (low > 0 && low >= size) || (high > 0 && high >= size) {
                assert(padding@[i as int] == (low, high));
                refused = true;
            }
            i += 1;
        }
        if refused {
            return Err(err("reflection widths must be smaller than the source dimension"));
        }
        proof {
            edge_paddings_succeed_unless_refused(self@, padding@);
        }
        self.extend_axes(graph, padding, true)
    }

    /// Select along an axis, separately at each other position. The result has
    /// the indices' extents; indices clamp to the axis.
    pub fn take_along_axis(
        &self,
        graph: &mut Graph,
        indices: &Tensor,
        axis: usize,
    ) -> (r: Result<Tensor, Error>)
        requires
            old(graph).wf(),
            old(graph).owns(*self),
            old(graph).admits(*indices),
        ensures
            final(graph).extends(*old(graph)),
            final(graph).yields(r, self.expr().take_along_axis(indices.expr(), axis)),
            final(graph).records(*old(graph), r),
    {
        if indices.dtype() != DType::I32 {
            return Err(err("gather indices must be I32"));
        }
        if !self.same_graph(indices) {
            return Err(err("cross-graph index"));
        }
        if axis >= self.shape().len() || self.shape()[axis] == 0 {
            return Err(err("take_along_axis requires a nonempty valid axis"));
        }
        if !same_except(self.shape(), indices.shape(), axis) {
            return Err(err("take_along_axis requires equal rank and non-axis dimensions"));
        }
        graph.node2(Op::TakeAlongAxis { axis }, self, indices, indices.shape())
    }

    /// Largest `k` values and their I32 indices along `axis`, sorted descending.
    /// Equal values keep their order; NaNs sort last. Requires `k` no larger than
    /// the axis.
    pub fn topk(
        &self,
        graph: &mut Graph,
        k: usize,
        axis: usize,
    ) -> (r: Result<(Tensor, Tensor), Error>)
        requires
            old(graph).wf(),
            old(graph).owns(*self),
        ensures
            final(graph).extends(*old(graph)),
            match r {
                Ok((values, indices)) => {
                    &&& final(graph).owns(values)
                    &&& final(graph).owns(indices)
                    &&& self.expr().topk_values(k, axis) == Expr::Is(values@)
                    &&& self.expr().topk_indices(k, axis) == Expr::Is(indices@)
                },
                Err(e) => self.expr().topk_indices(k, axis).given(
                    self.expr().topk_values(k, axis),
                ) == Expr::Fails(e),
            },
    {
        if axis >= self.shape().len() || self.shape()[axis] > i32::MAX as i64 {
            return Err(err("topk requires a valid I32-sized axis and k <= axis size"));
        }
        let size: i64 = self.shape()[axis];
        proof {
            lemma_volume_nonnegative(self@.dims);
        }
        if k as u64 > size as u64 {
            return Err(err("topk requires a valid I32-sized axis and k <= axis size"));
        }
        if k == 0 {
            let mut dims: Vec<i64> = vstd::slice::slice_to_vec(self.shape());
            dims.set(axis, 0);
            let values: Tensor = self.narrow(graph, axis, 0, 0)?;
            let indices: Tensor = graph.iota_i32(dims.as_slice(), axis)?;
            return Ok((values, indices));
        }
        proof {
            reveal(Expr::narrow);
        }
        let order: Tensor = graph.index1(
            Op::SortedIndices { axis, descending: true },
            self,
            self.shape(),
        )?;
        let indices: Tensor = order.narrow(graph, axis, 0, k as i64)?;
        let values: Tensor = self.take_along_axis(graph, &indices, axis)?;
        Ok((values, indices))
    }

    /// Stable ordering indices along an axis, with the extents of this tensor.
    /// NaNs are last in both directions.
    pub fn argsort(
        &self,
        graph: &mut Graph,
        axis: usize,
        descending: bool,
    ) -> (r: Result<Tensor, Error>)
        requires
            old(graph).wf(),
            old(graph).owns(*self),
        ensures
            final(graph).extends(*old(graph)),
            final(graph).yields(r, self.expr().argsort(axis, descending)),
            final(graph).records(*old(graph), r),
    {
        if axis >= self.shape().len() || self.shape()[axis] > i32::MAX as i64 {
            return Err(err("argsort requires a valid I32-sized axis"));
        }
        if self.shape()[axis] == 0 {
            return graph.iota_i32(self.shape(), axis);
        }
        graph.index1(Op::SortedIndices { axis, descending }, self, self.shape())
    }

    /// Gather along one axis, replacing it with the index tensor's extents.
    /// Indices clamp to the axis; negatives do not wrap.
    pub fn take(
        &self,
        graph: &mut Graph,
        indices: &Tensor,
        axis: usize,
    ) -> (r: Result<Tensor, Error>)
        requires
            old(graph).wf(),
            old(graph).owns(*self),
            old(graph).admits(*indices),
        ensures
            final(graph).extends(*old(graph)),
            final(graph).yields(r, self.expr().take(indices.expr(), axis)),
            final(graph).records(*old(graph), r),
    {
        if !self.same_graph(indices) {
            return Err(err("cross-graph index"));
        }
        if axis >= self.shape().len() || self.shape()[axis] == 0 {
            return Err(err("take requires a nonempty valid axis"));
        }
        let dims: Vec<i64> = replaced_axis(self.shape(), indices.shape(), axis);
        graph.node2(Op::Take { axis }, self, indices, dims.as_slice())
    }

    /// Extract a fixed-size slice at runtime indices, each clamped to
    /// `[0, dimension - size]`.
    pub fn dynamic_slice(
        &self,
        graph: &mut Graph,
        starts: &[Tensor],
        sizes: &[i64],
    ) -> (r: Result<Tensor, Error>)
        requires
            old(graph).wf(),
            old(graph).owns(*self),
            old(graph).admits_all(starts@),
        ensures
            final(graph).extends(*old(graph)),
            final(graph).yields(r, self.expr().dynamic_slice(values_of(starts@), sizes@)),
            final(graph).records(*old(graph), r),
    {
        assert forall|k: int| 0 <= k < starts@.len() implies #[trigger] starts@[k].wf() by {
            assert(graph.admits(starts@[k]));
        }
        check_dynamic(self.graph_id(), self.shape(), starts, sizes)?;
        proof {
            assert forall|k: int| 0 <= k < starts@.len() implies graph.owns(starts@[k]) by {
                assert(graph.admits(starts@[k]));
                assert(values_of(starts@)[k].graph == self@.graph);
            }
        }
        let first: Vec<Tensor> = vec![self.copy()];
        assert(values_of(first@) =~= seq![self@]);
        let operands: Vec<Tensor> = with_starts(first, starts);
        graph.node_list(Op::DynamicSlice, operands.as_slice(), sizes)
    }

    /// A tensor with the specified region replaced. Indices are clamped as in
    /// `dynamic_slice`. The input itself is not changed.
    pub fn dynamic_update_slice(
        &self,
        graph: &mut Graph,
        update: &Tensor,
        starts: &[Tensor],
    ) -> (r: Result<Tensor, Error>)
        requires
            old(graph).wf(),
            old(graph).owns(*self),
            old(graph).admits(*update),
            old(graph).admits_all(starts@),
        ensures
            final(graph).extends(*old(graph)),
            final(graph).yields(r, self.expr().dynamic_update_slice(update.expr(), values_of(starts@))),
            final(graph).records(*old(graph), r),
    {
        if !self.same_graph(update) {
            return Err(err("cross-graph update"));
        }
        assert forall|k: int| 0 <= k < starts@.len() implies #[trigger] starts@[k].wf() by {
            assert(graph.admits(starts@[k]));
        }
        check_dynamic(self.graph_id(), self.shape(), starts, update.shape())?;
        proof {
            assert forall|k: int| 0 <= k < starts@.len() implies graph.owns(starts@[k]) by {
                assert(graph.admits(starts@[k]));
                assert(values_of(starts@)[k].graph == self@.graph);
            }
        }
        let first: Vec<Tensor> = vec![self.copy(), update.copy()];
        assert(values_of(first@) =~= seq![self@, update@]);
        let operands: Vec<Tensor> = with_starts(first, starts);
        graph.node_list(Op::DynamicUpdateSlice, operands.as_slice(), self.shape())
    }

    /// Rebind this handle to a tensor with one contiguous region replaced.
    /// Clones of the old handle keep the old value.
    pub fn slice_copy_(&mut self, graph: &mut Graph, update: &Tensor, starts: &[Tensor]) -> (r:
        Result<(), Error>)
        requires
            old(graph).wf(),
            old(graph).owns(*old(self)),
            old(graph).admits(*update),
            old(graph).admits_all(starts@),
        ensures
            final(graph).extends(*old(graph)),
            match r {
                Ok(_) => {
                    &&& final(graph).owns(*final(self))
                    &&& final(self).id() == old(graph).model().len()
                    &&& old(self).expr().dynamic_update_slice(update.expr(), values_of(starts@))
                        == Expr::Is(final(self)@)
                },
                Err(e) => {
                    &&& *final(self) == *old(self)
                    &&& old(self).expr().dynamic_update_slice(update.expr(), values_of(starts@))
                        == Expr::Fails(e)
                },
            },
    {
        let updated: Tensor = self.dynamic_update_slice(graph, update, starts)?;
        *self = updated;
        Ok(())
    }

    /// Add indexed updates along one axis. Indices clamp exactly as in `take`,
    /// and repeated indices sum.
    pub fn index_add(
        &self,
        graph: &mut Graph,
        axis: usize,
        indices: &Tensor,
        updates: &Tensor,
    ) -> (r: Result<Tensor, Error>)
        requires
            old(graph).wf(),
            old(graph).owns(*self),
            old(graph).admits(*indices),
            old(graph).admits(*updates),
        ensures
            final(graph).extends(*old(graph)),
            final(graph).yields(r, self.expr().index_add(axis, indices.expr(), updates.expr())),
            r matches Ok(t) ==> t.id() >= old(graph).model().len(),
    {
        if !self.same_graph(indices) || !self.same_graph(updates) {
            return Err(err("cross-graph indexed update"));
        }
        if self.dtype() != DType::F32 || updates.dtype() != DType::F32 || indices.dtype()
            != DType::I32 || axis >= self.shape().len() || self.shape()[axis] == 0 {
            return Err(err("index_add requires F32 tensors, I32 indices and a nonempty valid axis"));
        }
        let expected: Vec<i64> = replaced_axis(self.shape(), indices.shape(), axis);
        if !same_dims(updates.shape(), expected.as_slice()) {
            return Err(err("index_add update shape does not match indexed result shape"));
        }
        let scattered: Tensor = graph.node2(
            Op::GatherGradient { axis, batched: false },
            updates,
            indices,
            self.shape(),
        )?;
        self.add(graph, &scattered)
    }

    /// Rebind this handle to the result of `index_add`.
    pub fn index_add_(
        &mut self,
        graph: &mut Graph,
        axis: usize,
        indices: &Tensor,
        updates: &Tensor,
    ) -> (r: Result<(), Error>)
        requires
            old(graph).wf(),
            old(graph).owns(*old(self)),
            old(graph).admits(*indices),
            old(graph).admits(*updates),
        ensures
            final(graph).extends(*old(graph)),
            match r {
                Ok(_) => {
                    &&& final(graph).owns(*final(self))
                    &&& final(self).id() >= old(graph).model().len()
                    &&& old(self).expr().index_add(axis, indices.expr(), updates.expr())
                        == Expr::Is(final(self)@)
                },
                Err(e) => {
                    &&& *final(self) == *old(self)
                    &&& old(self).expr().index_add(axis, indices.expr(), updates.expr())
                        == Expr::Fails(e)
                },
            },
    {
        let updated: Tensor = self.index_add(graph, axis, indices, updates)?;
        *self = updated;
        Ok(())
    }

    /// Circularly shift one axis; positive shifts move toward higher indices.
    /// The shift is reduced modulo the axis length.
    pub fn roll(
        &self,
        graph: &mut Graph,
        shift: i64,
        axis: usize,
    ) -> (r: Result<Tensor, Error>)
        requires
            old(graph).wf(),
            old(graph).owns(*self),
        ensures
            final(graph).extends(*old(graph)),
            final(graph).yields(r, self.expr().roll(shift, axis)),
    {
        if axis >= self.shape().len() {
            return Err(err("roll axis out of range"));
        }
        let size: i64 = self.shape()[axis];
        proof {
            lemma_volume_nonnegative(self@.dims);
        }
        if size == 0 {
            return Ok(self.copy());
        }
        let distance: i64 = match shift.checked_rem_euclid(size) {
            Some(distance) => distance,
            None => 0,
        };
        if distance == 0 {
            return Ok(self.copy());
        }
        let tail: Tensor = self.narrow(graph, axis, size - distance, distance)?;
        let head: Tensor = self.narrow(graph, axis, 0, size - distance)?;
        let pieces: Vec<Tensor> = vec![tail, head];
        assert(values_of(pieces@) =~= seq![tail@, head@]);
        Tensor::concatenate(graph, pieces.as_slice(), axis)
    }

    /// Repeat each element along an axis consecutively. The count is a
    /// nonnegative constant; zero produces an empty axis.
    pub fn repeat_interleave(
        &self,
        graph: &mut Graph,
        repeats: i64,
        axis: usize,
    ) -> (r: Result<Tensor, Error>)
        requires
            old(graph).wf(),
            old(graph).owns(*self),
        ensures
            final(graph).extends(*old(graph)),
            final(graph).yields(r, self.expr().repeat_interleave(repeats, axis)),
    {
        if axis >= self.shape().len() {
            return Err(err("repeat_interleave axis out of range"));
        }
        let size: i64 = self.shape()[axis];
        proof {
            lemma_volume_nonnegative(self@.dims);
        }
        if repeats < 0 {
            return Err(err("repeat_interleave count must be nonnegative"));
        }
        let extent: i64 = match size.checked_mul(repeats) {
            Some(extent) => extent,
            None => {
                proof {
                    assert(size * repeats >= 0) by (nonlinear_arith)
                        requires
                            size >= 0,
                            repeats >= 0,
                    ;
                }
                return Err(err("repeat_interleave dimension overflow"));
            },
        };
        let mut output: Vec<i64> = vstd::slice::slice_to_vec(self.shape());
        output.set(axis, extent);
        match elements(output.as_slice()) {
            Err(e) => {
                return Err(e);
            },
            Ok(_) => {},
        }
        if repeats == 1 {
            return Ok(self.copy());
        }
        let mut expanded: Vec<i64> = vstd::slice::slice_to_vec(self.shape());
        expanded.insert(axis + 1, repeats);
        self.unsqueeze(graph, axis + 1)?.broadcast_to(graph, expanded.as_slice())?.reshape(
            graph,
            output.as_slice(),
        )
    }

    /// Split an axis into explicitly sized pieces that cover it exactly.
    pub fn split(
        &self,
        graph: &mut Graph,
        axis: usize,
        sizes: &[i64],
    ) -> (r: Result<Vec<Tensor>, Error>)
        requires
            old(graph).wf(),
            old(graph).owns(*self),
        ensures
            final(graph).extends(*old(graph)),
            final(graph).yields_all(r, pieces(self@, axis, sizes@)),
    {
        if axis >= self.shape().len() || sizes.len() == 0 {
            return Err(err("split requires a valid axis and nonempty sizes"));
        }
        let size: i64 = self.shape()[axis];
        match total_of(sizes) {
            Some(total) => {
                if total != size {
                    return Err(err("split sizes must sum to the axis length"));
                }
            },
            None => {
                return Err(err("split sizes must sum to the axis length"));
            },
        }
        let ghost parts = Seq::new(
            sizes@.len(),
            |k: int|
                Expr::Is(self@).narrow(axis, sizes_total(sizes@.take(k)).unwrap() as i64, sizes@[k]),
        );
        let mut slices: Vec<Tensor> = Vec::new();
        let mut start: i64 = 0;
        let mut i: usize = 0;
        assert(sizes@.take(0) =~= Seq::<i64>::empty());
        while i < sizes.len()
            invariant
                old(graph).owns(*self),
                graph.extends(*old(graph)),
                sizes_total(sizes@) is Some,
                pieces(self@, axis, sizes@) == collect(parts),
                parts == Seq::new(
                    sizes@.len(),
                    |k: int|
                        Expr::Is(self@).narrow(
                            axis,
                            sizes_total(sizes@.take(k)).unwrap() as i64,
                            sizes@[k],
                        ),
                ),
                i <= sizes@.len(),
                sizes_total(sizes@.take(i as int)) == Some(start as int),
                slices@.len() == i,
                forall|j: int| 0 <= j < i ==> #[trigger] graph.owns(slices@[j]),
                forall|j: int| 0 <= j < i ==> #[trigger] parts[j] == Expr::Is(slices@[j]@),
            decreases sizes@.len() - i,
        {
            let ghost before = *graph;
            assert(graph.admits(*self));
            proof {
                lemma_sizes_prefix(sizes@, i + 1);
                assert(sizes@.take(i + 1).drop_last() =~= sizes@.take(i as int));
                assert(sizes@.take(i + 1).last() == sizes@[i as int]);
                assert(parts[i as int] == self.expr().narrow(axis, start, sizes@[i as int]));
            }
            match self.narrow(graph, axis, start, sizes[i]) {
                Ok(piece) => {
                    proof {
                        assert forall|j: int| 0 <= j < i implies #[trigger] graph.owns(slices@[j]) by {
                            assert(before.owns(slices@[j]));
                            assert(graph.admits(slices@[j]));
                        }
                    }
                    slices.push(piece);
                },
                Err(e) => {
                    proof {
                        lemma_collect_err(parts, i as int, e);
                    }
                    return Err(e);
                },
            }
            start = start + sizes[i];
            i += 1;
        }
        proof {
            lemma_collect_ok(parts, values_of(slices@));
        }
        Ok(slices)
    }
}

} // verus!
