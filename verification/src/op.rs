//! Operations of the tensor graph and their static attributes.
use crate::dtype::DType;
use vstd::prelude::*;

verus! {

/// An F32 constant of the graph. Literal values are carried as their IEEE 754
/// bit patterns. The other forms name F32 arithmetic on literals whose rounding
/// belongs to the machine: they are evaluated where the graph is lowered.
#[derive(Clone, Copy, PartialEq, Eq, Structural, Debug)]
pub enum Scalar {
    /// The value with these bits.
    Bits(u32),
    /// `1 / count`, with `count` first rounded to F32.
    Reciprocal { count: u64 },
    /// `1 / (a * b)`, with both factors first rounded to F32.
    ReciprocalProduct { a: i64, b: i64 },
    /// `1 / sqrt(radicand)`, with `radicand` first rounded to F32.
    ReciprocalSqrt { radicand: i64 },
    /// `1 / x` of the value with these bits.
    ReciprocalOf(u32),
    /// `1 - x` of the value with these bits.
    OneMinus(u32),
    /// `-x` of the value with these bits.
    Negated(u32),
    /// `-ln(x)` of the value with these bits.
    NegatedLog(u32),
    /// `numerator / divisor`, with the divisor first rounded to F32.
    Quotient { numerator: u32, divisor: i64 },
}

/// Bits of the F32 value zero.
pub const F32_ZERO: u32 = 0x0000_0000;

/// Bits of the F32 value one half.
pub const F32_HALF: u32 = 0x3f00_0000;

/// Bits of the F32 value minus one half.
pub const F32_NEG_HALF: u32 = 0xbf00_0000;

/// Bits of the F32 value one.
pub const F32_ONE: u32 = 0x3f80_0000;

/// Bits of the F32 value minus one.
pub const F32_NEG_ONE: u32 = 0xbf80_0000;

/// Bits of the F32 value two.
pub const F32_TWO: u32 = 0x4000_0000;

/// Bits of positive F32 infinity.
pub const F32_INFINITY: u32 = 0x7f80_0000;

/// Bits of negative F32 infinity.
pub const F32_NEG_INFINITY: u32 = 0xff80_0000;

/// Bits of the canonical quiet F32 NaN.
pub const F32_NAN: u32 = 0x7fc0_0000;

/// Bits of the F32 sign.
pub const F32_SIGN: u32 = 0x8000_0000;

/// The bits of an F32 value without its sign.
pub open spec fn f32_magnitude(bits: u32) -> u32 {
    (bits as int % F32_SIGN as int) as u32
}

/// Whether the F32 value with these bits is neither infinite nor NaN.
pub open spec fn f32_finite(bits: u32) -> bool {
    f32_magnitude(bits) < F32_INFINITY
}

/// Whether the F32 value with these bits is a NaN.
pub open spec fn f32_nan(bits: u32) -> bool {
    f32_magnitude(bits) > F32_INFINITY
}

/// An integer that orders F32 values other than NaN as the reals are ordered;
/// both zeros have order 0.
pub open spec fn f32_order(bits: u32) -> int {
    if bits < F32_SIGN {
        bits as int
    } else {
        F32_SIGN - bits
    }
}

/// Whether the value is finite and greater than zero.
pub open spec fn f32_positive_finite(bits: u32) -> bool {
    f32_finite(bits) && f32_order(bits) > 0
}

/// The bits of an F32 value without its sign.
pub fn magnitude(bits: u32) -> (r: u32)
    ensures
        r == f32_magnitude(bits),
{
    bits % F32_SIGN
}

/// Whether the F32 value with these bits is neither infinite nor NaN.
pub fn is_finite(bits: u32) -> (r: bool)
    ensures
        r == f32_finite(bits),
{
    magnitude(bits) < F32_INFINITY
}

/// Whether the F32 value with these bits is a NaN.
pub fn is_nan(bits: u32) -> (r: bool)
    ensures
        r == f32_nan(bits),
{
    magnitude(bits) > F32_INFINITY
}

/// The order of the F32 value with these bits among F32 values.
pub fn order(bits: u32) -> (r: i64)
    ensures
        r == f32_order(bits),
{
    if bits < F32_SIGN {
        bits as i64
    } else {
        F32_SIGN as i64 - bits as i64
    }
}

/// Whether the value is finite and greater than zero.
pub fn is_positive_finite(bits: u32) -> (r: bool)
    ensures
        r == f32_positive_finite(bits),
{
    is_finite(bits) && order(bits) > 0
}

/// Elementwise operations of one operand.
#[derive(Clone, Copy, PartialEq, Eq, Structural, Debug)]
pub enum Unary {
    Exp,
    Log,
    Log1p,
    Expm1,
    Abs,
    Neg,
    Sqrt,
    Rsqrt,
    Tanh,
    Erf,
    Floor,
    Ceil,
    Round,
    RoundTiesEven,
    Sin,
    Cos,
}

/// Elementwise operations of two operands.
#[derive(Clone, Copy, PartialEq, Eq, Structural, Debug)]
pub enum Binary {
    Add,
    Sub,
    Mul,
    Div,
    Maximum,
    Minimum,
}

/// Bitwise operations on I32 patterns.
#[derive(Clone, Copy, PartialEq, Eq, Structural, Debug)]
pub enum IntegerBinary {
    And,
    Or,
    Xor,
    ShiftLeft,
    ShiftRightLogical,
    ShiftRightArithmetic,
}

/// Elementwise comparisons that yield an F32 mask.
#[derive(Clone, Copy, PartialEq, Eq, Structural, Debug)]
pub enum Comparison {
    Equal,
    NotEqual,
    Less,
    LessEqual,
    Greater,
    GreaterEqual,
}

/// Reductions over axes.
#[derive(Clone, Copy, PartialEq, Eq, Structural, Debug)]
pub enum Reduction {
    Sum,
    Maximum,
}

/// Half-open static slice of one axis.
#[derive(Clone, Copy, PartialEq, Eq, Structural, Debug)]
pub struct SliceAxis {
    pub start: i64,
    pub limit: i64,
    pub stride: i64,
}

/// A low and a high width, in this order.
pub type Widths = (i64, i64);

/// Static attributes of a two-dimensional convolution.
#[derive(Clone, Copy, PartialEq, Eq, Debug)]
pub struct Conv2dOptions {
    pub strides: (i64, i64),
    pub padding: (Widths, Widths),
    pub dilation: (i64, i64),
    pub groups: i64,
}

/// Static attributes of a two-dimensional transposed convolution.
#[derive(Clone, Copy, PartialEq, Eq, Debug)]
pub struct ConvTranspose2dOptions {
    pub strides: (i64, i64),
    pub padding: (Widths, Widths),
    pub dilation: (i64, i64),
    pub output_padding: (i64, i64),
}

/// Static attributes of a two-dimensional pooling window.
#[derive(Clone, Copy, PartialEq, Eq, Debug)]
pub struct Pool2dOptions {
    pub window: (i64, i64),
    pub strides: (i64, i64),
    pub padding: (Widths, Widths),
}

impl Default for Conv2dOptions {
    /// Unit strides and dilation, no padding, one group.
    fn default() -> (r: Self)
        ensures
            r.strides == (1i64, 1i64),
            r.padding == ((0i64, 0i64), (0i64, 0i64)),
            r.dilation == (1i64, 1i64),
            r.groups == 1,
    {
        Conv2dOptions { strides: (1, 1), padding: ((0, 0), (0, 0)), dilation: (1, 1), groups: 1 }
    }
}

/// One operation of the graph, with its static attributes.
pub enum Op {
    Parameter(usize),
    StateInput { number: usize, state: usize, path: String },
    StateRead { state: usize },
    StateWrite { state: usize },
    ConstantF32(Vec<Scalar>),
    ConstantI32(Vec<i32>),
    Iota { axis: usize },
    IndexToFloat,
    Bf16ToFloat,
    Convert { dtype: DType },
    Unary(Unary),
    Binary(Binary),
    IntegerBinary(IntegerBinary),
    CompareMask(Comparison),
    IndexLessEqualMask,
    IsFiniteMask,
    Select,
    Relu,
    Softplus,
    Sigmoid,
    StopGradient,
    OptimizationBarrier,
    WithGradient,
    WithElementwiseDerivative,
    Reshape,
    Broadcast { axes: Vec<usize> },
    Transpose { permutation: Vec<usize> },
    Reverse { axes: Vec<usize> },
    Reduce { kind: Reduction, axes: Vec<usize> },
    Cumsum { axis: usize },
    Slice(Vec<SliceAxis>),
    SliceGradient(Vec<SliceAxis>),
    Pad(Vec<Widths>),
    Concatenate { axis: usize },
    Take { axis: usize },
    TakeAlongAxis { axis: usize },
    GatherGradient { axis: usize, batched: bool },
    DynamicSlice,
    DynamicUpdateSlice,
    ArgMax { axis: usize },
    SortedIndices { axis: usize, descending: bool },
    Matmul { batch_rank: usize },
    Attention { scale: Scalar },
    Conv2d(Conv2dOptions),
    Conv2dOihw(Conv2dOptions),
    ConvTranspose2d(ConvTranspose2dOptions),
    Conv2dInputGradient(Conv2dOptions),
    Conv2dKernelGradient(Conv2dOptions),
    MaxPool2d(Pool2dOptions),
    SumPool2d(Pool2dOptions),
    GetDimensionSize { axis: usize },
    If,
    MultiResult,
    CustomCall { result_dtype: DType },
}

/// The mathematical content of an operation.
pub enum OpModel {
    Parameter(usize),
    StateInput { number: usize, state: usize, path: Seq<char> },
    StateRead { state: usize },
    StateWrite { state: usize },
    ConstantF32(Seq<Scalar>),
    ConstantI32(Seq<i32>),
    Iota { axis: usize },
    IndexToFloat,
    Bf16ToFloat,
    Convert { dtype: DType },
    Unary(Unary),
    Binary(Binary),
    IntegerBinary(IntegerBinary),
    CompareMask(Comparison),
    IndexLessEqualMask,
    IsFiniteMask,
    Select,
    Relu,
    Softplus,
    Sigmoid,
    StopGradient,
    OptimizationBarrier,
    WithGradient,
    WithElementwiseDerivative,
    Reshape,
    Broadcast { axes: Seq<usize> },
    Transpose { permutation: Seq<usize> },
    Reverse { axes: Seq<usize> },
    Reduce { kind: Reduction, axes: Seq<usize> },
    Cumsum { axis: usize },
    Slice(Seq<SliceAxis>),
    SliceGradient(Seq<SliceAxis>),
    Pad(Seq<Widths>),
    Concatenate { axis: usize },
    Take { axis: usize },
    TakeAlongAxis { axis: usize },
    GatherGradient { axis: usize, batched: bool },
    DynamicSlice,
    DynamicUpdateSlice,
    ArgMax { axis: usize },
    SortedIndices { axis: usize, descending: bool },
    Matmul { batch_rank: usize },
    Attention { scale: Scalar },
    Conv2d(Conv2dOptions),
    Conv2dOihw(Conv2dOptions),
    ConvTranspose2d(ConvTranspose2dOptions),
    Conv2dInputGradient(Conv2dOptions),
    Conv2dKernelGradient(Conv2dOptions),
    MaxPool2d(Pool2dOptions),
    SumPool2d(Pool2dOptions),
    GetDimensionSize { axis: usize },
    If,
    MultiResult,
    CustomCall { result_dtype: DType },
}

impl View for Op {
    type V = OpModel;

    open spec fn view(&self) -> OpModel {
        match *self {
            Op::Parameter(x) => OpModel::Parameter(x),
            Op::StateInput { number, state, path } => OpModel::StateInput { number, state, path: path@ },
            Op::StateRead { state } => OpModel::StateRead { state },
            Op::StateWrite { state } => OpModel::StateWrite { state },
            Op::ConstantF32(x) => OpModel::ConstantF32(x@),
            Op::ConstantI32(x) => OpModel::ConstantI32(x@),
            Op::Iota { axis } => OpModel::Iota { axis },
            Op::IndexToFloat => OpModel::IndexToFloat,
            Op::Bf16ToFloat => OpModel::Bf16ToFloat,
            Op::Convert { dtype } => OpModel::Convert { dtype },
            Op::Unary(x) => OpModel::Unary(x),
            Op::Binary(x) => OpModel::Binary(x),
            Op::IntegerBinary(x) => OpModel::IntegerBinary(x),
            Op::CompareMask(x) => OpModel::CompareMask(x),
            Op::IndexLessEqualMask => OpModel::IndexLessEqualMask,
            Op::IsFiniteMask => OpModel::IsFiniteMask,
            Op::Select => OpModel::Select,
            Op::Relu => OpModel::Relu,
            Op::Softplus => OpModel::Softplus,
            Op::Sigmoid => OpModel::Sigmoid,
            Op::StopGradient => OpModel::StopGradient,
            Op::OptimizationBarrier => OpModel::OptimizationBarrier,
            Op::WithGradient => OpModel::WithGradient,
            Op::WithElementwiseDerivative => OpModel::WithElementwiseDerivative,
            Op::Reshape => OpModel::Reshape,
            Op::Broadcast { axes } => OpModel::Broadcast { axes: axes@ },
            Op::Transpose { permutation } => OpModel::Transpose { permutation: permutation@ },
            Op::Reverse { axes } => OpModel::Reverse { axes: axes@ },
            Op::Reduce { kind, axes } => OpModel::Reduce { kind, axes: axes@ },
            Op::Cumsum { axis } => OpModel::Cumsum { axis },
            Op::Slice(x) => OpModel::Slice(x@),
            Op::SliceGradient(x) => OpModel::SliceGradient(x@),
            Op::Pad(x) => OpModel::Pad(x@),
            Op::Concatenate { axis } => OpModel::Concatenate { axis },
            Op::Take { axis } => OpModel::Take { axis },
            Op::TakeAlongAxis { axis } => OpModel::TakeAlongAxis { axis },
            Op::GatherGradient { axis, batched } => OpModel::GatherGradient { axis, batched },
            Op::DynamicSlice => OpModel::DynamicSlice,
            Op::DynamicUpdateSlice => OpModel::DynamicUpdateSlice,
            Op::ArgMax { axis } => OpModel::ArgMax { axis },
            Op::SortedIndices { axis, descending } => OpModel::SortedIndices { axis, descending },
            Op::Matmul { batch_rank } => OpModel::Matmul { batch_rank },
            Op::Attention { scale } => OpModel::Attention { scale },
            Op::Conv2d(x) => OpModel::Conv2d(x),
            Op::Conv2dOihw(x) => OpModel::Conv2dOihw(x),
            Op::ConvTranspose2d(x) => OpModel::ConvTranspose2d(x),
            Op::Conv2dInputGradient(x) => OpModel::Conv2dInputGradient(x),
            Op::Conv2dKernelGradient(x) => OpModel::Conv2dKernelGradient(x),
            Op::MaxPool2d(x) => OpModel::MaxPool2d(x),
            Op::SumPool2d(x) => OpModel::SumPool2d(x),
            Op::GetDimensionSize { axis } => OpModel::GetDimensionSize { axis },
            Op::If => OpModel::If,
            Op::MultiResult => OpModel::MultiResult,
            Op::CustomCall { result_dtype } => OpModel::CustomCall { result_dtype },
        }
    }
}

/// A copy of a vector of plain values.
pub(crate) fn copied<T: Copy>(values: &Vec<T>) -> (r: Vec<T>)
    ensures
        r@ == values@,
{
    vstd::slice::slice_to_vec(values.as_slice())
}

impl Op {
    /// A copy of the operation.
    pub fn duplicate(&self) -> (r: Op)
        ensures
            r@ == self@,
    {
        match self {
            Op::Parameter(x) => Op::Parameter(*x),
            Op::StateInput { number, state, path } => Op::StateInput { number: *number, state: *state, path: path.clone() },
            Op::StateRead { state } => Op::StateRead { state: *state },
            Op::StateWrite { state } => Op::StateWrite { state: *state },
            Op::ConstantF32(x) => Op::ConstantF32(copied(x)),
            Op::ConstantI32(x) => Op::ConstantI32(copied(x)),
            Op::Iota { axis } => Op::Iota { axis: *axis },
            Op::IndexToFloat => Op::IndexToFloat,
            Op::Bf16ToFloat => Op::Bf16ToFloat,
            Op::Convert { dtype } => Op::Convert { dtype: *dtype },
            Op::Unary(x) => Op::Unary(*x),
            Op::Binary(x) => Op::Binary(*x),
            Op::IntegerBinary(x) => Op::IntegerBinary(*x),
            Op::CompareMask(x) => Op::CompareMask(*x),
            Op::IndexLessEqualMask => Op::IndexLessEqualMask,
            Op::IsFiniteMask => Op::IsFiniteMask,
            Op::Select => Op::Select,
            Op::Relu => Op::Relu,
            Op::Softplus => Op::Softplus,
            Op::Sigmoid => Op::Sigmoid,
            Op::StopGradient => Op::StopGradient,
            Op::OptimizationBarrier => Op::OptimizationBarrier,
            Op::WithGradient => Op::WithGradient,
            Op::WithElementwiseDerivative => Op::WithElementwiseDerivative,
            Op::Reshape => Op::Reshape,
            Op::Broadcast { axes } => Op::Broadcast { axes: copied(axes) },
            Op::Transpose { permutation } => Op::Transpose { permutation: copied(permutation) },
            Op::Reverse { axes } => Op::Reverse { axes: copied(axes) },
            Op::Reduce { kind, axes } => Op::Reduce { kind: *kind, axes: copied(axes) },
            Op::Cumsum { axis } => Op::Cumsum { axis: *axis },
            Op::Slice(x) => Op::Slice(copied(x)),
            Op::SliceGradient(x) => Op::SliceGradient(copied(x)),
            Op::Pad(x) => Op::Pad(copied(x)),
            Op::Concatenate { axis } => Op::Concatenate { axis: *axis },
            Op::Take { axis } => Op::Take { axis: *axis },
            Op::TakeAlongAxis { axis } => Op::TakeAlongAxis { axis: *axis },
            Op::GatherGradient { axis, batched } => Op::GatherGradient { axis: *axis, batched: *batched },
            Op::DynamicSlice => Op::DynamicSlice,
            Op::DynamicUpdateSlice => Op::DynamicUpdateSlice,
            Op::ArgMax { axis } => Op::ArgMax { axis: *axis },
            Op::SortedIndices { axis, descending } => Op::SortedIndices { axis: *axis, descending: *descending },
            Op::Matmul { batch_rank } => Op::Matmul { batch_rank: *batch_rank },
            Op::Attention { scale } => Op::Attention { scale: *scale },
            Op::Conv2d(x) => Op::Conv2d(*x),
            Op::Conv2dOihw(x) => Op::Conv2dOihw(*x),
            Op::ConvTranspose2d(x) => Op::ConvTranspose2d(*x),
            Op::Conv2dInputGradient(x) => Op::Conv2dInputGradient(*x),
            Op::Conv2dKernelGradient(x) => Op::Conv2dKernelGradient(*x),
            Op::MaxPool2d(x) => Op::MaxPool2d(*x),
            Op::SumPool2d(x) => Op::SumPool2d(*x),
            Op::GetDimensionSize { axis } => Op::GetDimensionSize { axis: *axis },
            Op::If => Op::If,
            Op::MultiResult => Op::MultiResult,
            Op::CustomCall { result_dtype } => Op::CustomCall { result_dtype: *result_dtype },
        }
    }
}

/// The name of an operation, for diagnostics.
pub open spec fn op_name(op: OpModel) -> &'static str {
    match op {
        OpModel::Parameter(..) => "Parameter",
        OpModel::StateInput { .. } => "StateInput",
        OpModel::StateRead { .. } => "StateRead",
        OpModel::StateWrite { .. } => "StateWrite",
        OpModel::ConstantF32(..) => "ConstantF32",
        OpModel::ConstantI32(..) => "ConstantI32",
        OpModel::Iota { .. } => "Iota",
        OpModel::IndexToFloat => "IndexToFloat",
        OpModel::Bf16ToFloat => "Bf16ToFloat",
        OpModel::Convert { .. } => "Convert",
        OpModel::Unary(..) => "Unary",
        OpModel::Binary(..) => "Binary",
        OpModel::IntegerBinary(..) => "IntegerBinary",
        OpModel::CompareMask(..) => "CompareMask",
        OpModel::IndexLessEqualMask => "IndexLessEqualMask",
        OpModel::IsFiniteMask => "IsFiniteMask",
        OpModel::Select => "Select",
        OpModel::Relu => "Relu",
        OpModel::Softplus => "Softplus",
        OpModel::Sigmoid => "Sigmoid",
        OpModel::StopGradient => "StopGradient",
        OpModel::OptimizationBarrier => "OptimizationBarrier",
        OpModel::WithGradient => "WithGradient",
        OpModel::WithElementwiseDerivative => "WithElementwiseDerivative",
        OpModel::Reshape => "Reshape",
        OpModel::Broadcast { .. } => "Broadcast",
        OpModel::Transpose { .. } => "Transpose",
        OpModel::Reverse { .. } => "Reverse",
        OpModel::Reduce { .. } => "Reduce",
        OpModel::Cumsum { .. } => "Cumsum",
        OpModel::Slice(..) => "Slice",
        OpModel::SliceGradient(..) => "SliceGradient",
        OpModel::Pad(..) => "Pad",
        OpModel::Concatenate { .. } => "Concatenate",
        OpModel::Take { .. } => "Take",
        OpModel::TakeAlongAxis { .. } => "TakeAlongAxis",
        OpModel::GatherGradient { .. } => "GatherGradient",
        OpModel::DynamicSlice => "DynamicSlice",
        OpModel::DynamicUpdateSlice => "DynamicUpdateSlice",
        OpModel::ArgMax { .. } => "ArgMax",
        OpModel::SortedIndices { .. } => "SortedIndices",
        OpModel::Matmul { .. } => "Matmul",
        OpModel::Attention { .. } => "Attention",
        OpModel::Conv2d(..) => "Conv2d",
        OpModel::Conv2dOihw(..) => "Conv2dOihw",
        OpModel::ConvTranspose2d(..) => "ConvTranspose2d",
        OpModel::Conv2dInputGradient(..) => "Conv2dInputGradient",
        OpModel::Conv2dKernelGradient(..) => "Conv2dKernelGradient",
        OpModel::MaxPool2d(..) => "MaxPool2d",
        OpModel::SumPool2d(..) => "SumPool2d",
        OpModel::GetDimensionSize { .. } => "GetDimensionSize",
        OpModel::If => "If",
        OpModel::MultiResult => "MultiResult",
        OpModel::CustomCall { .. } => "CustomCall",
    }
}

/// The name of an operation, for diagnostics.
pub fn operation_name(op: &Op) -> (r: &'static str)
    ensures
        r == op_name(op@),
{
    match op {
        Op::Parameter(..) => "Parameter",
        Op::StateInput { .. } => "StateInput",
        Op::StateRead { .. } => "StateRead",
        Op::StateWrite { .. } => "StateWrite",
        Op::ConstantF32(..) => "ConstantF32",
        Op::ConstantI32(..) => "ConstantI32",
        Op::Iota { .. } => "Iota",
        Op::IndexToFloat => "IndexToFloat",
        Op::Bf16ToFloat => "Bf16ToFloat",
        Op::Convert { .. } => "Convert",
        Op::Unary(..) => "Unary",
        Op::Binary(..) => "Binary",
        Op::IntegerBinary(..) => "IntegerBinary",
        Op::CompareMask(..) => "CompareMask",
        Op::IndexLessEqualMask => "IndexLessEqualMask",
        Op::IsFiniteMask => "IsFiniteMask",
        Op::Select => "Select",
        Op::Relu => "Relu",
        Op::Softplus => "Softplus",
        Op::Sigmoid => "Sigmoid",
        Op::StopGradient => "StopGradient",
        Op::OptimizationBarrier => "OptimizationBarrier",
        Op::WithGradient => "WithGradient",
        Op::WithElementwiseDerivative => "WithElementwiseDerivative",
        Op::Reshape => "Reshape",
        Op::Broadcast { .. } => "Broadcast",
        Op::Transpose { .. } => "Transpose",
        Op::Reverse { .. } => "Reverse",
        Op::Reduce { .. } => "Reduce",
        Op::Cumsum { .. } => "Cumsum",
        Op::Slice(..) => "Slice",
        Op::SliceGradient(..) => "SliceGradient",
        Op::Pad(..) => "Pad",
        Op::Concatenate { .. } => "Concatenate",
        Op::Take { .. } => "Take",
        Op::TakeAlongAxis { .. } => "TakeAlongAxis",
        Op::GatherGradient { .. } => "GatherGradient",
        Op::DynamicSlice => "DynamicSlice",
        Op::DynamicUpdateSlice => "DynamicUpdateSlice",
        Op::ArgMax { .. } => "ArgMax",
        Op::SortedIndices { .. } => "SortedIndices",
        Op::Matmul { .. } => "Matmul",
        Op::Attention { .. } => "Attention",
        Op::Conv2d(..) => "Conv2d",
        Op::Conv2dOihw(..) => "Conv2dOihw",
        Op::ConvTranspose2d(..) => "ConvTranspose2d",
        Op::Conv2dInputGradient(..) => "Conv2dInputGradient",
        Op::Conv2dKernelGradient(..) => "Conv2dKernelGradient",
        Op::MaxPool2d(..) => "MaxPool2d",
        Op::SumPool2d(..) => "SumPool2d",
        Op::GetDimensionSize { .. } => "GetDimensionSize",
        Op::If => "If",
        Op::MultiResult => "MultiResult",
        Op::CustomCall { .. } => "CustomCall",
    }
}

} // verus!
