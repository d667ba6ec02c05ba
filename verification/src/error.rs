//! Failures of tensor construction and transformation.
use crate::dtype::DType;
use crate::listing::Listing;
use vstd::prelude::*;

verus! {

/// Failures reported by the intermediate representation itself.
#[derive(Clone, Copy, Debug)]
pub enum IrError {
    /// The operation has no lowering and cannot be recorded.
    UnsupportedOperation { operation: &'static str },
}

/// A device as a failure names it.
#[derive(Debug)]
pub struct NamedDevice {
    pub backend: Listing<char>,
    pub ordinal: usize,
    pub id: i32,
    pub kind: Listing<char>,
}

/// Failures of the tensor layer. Every variant is plain data, so that a
/// contract can say which failure an input provokes, with all that it tells.
#[derive(Debug)]
pub enum Error {
    /// An argument breaks a rule of the operation it was given to.
    InvalidArgument { message: &'static str },
    /// The bounds or the stride of a static slice are invalid at one axis.
    SliceAxis { axis: usize },
    /// An axis lies outside a tensor's rank.
    AxisOutOfRange { operation: &'static str, axis: usize, rank: usize },
    /// The operand element types do not fit the operation.
    UnsupportedOperandTypes { operation: &'static str, types: Listing<DType> },
    /// No conversion to F32 exists for this element type.
    CannotConvert { dtype: DType },
    /// Reverse mode met an operation that has no derivative rule.
    UnsupportedGradient { node: usize, operation: &'static str },
    /// An image transformation was given something else than F32 NHWC data.
    ImageLayout { operation: &'static str },
    /// A resize was given an empty source or a nonpositive target.
    ResizeDimensions { operation: &'static str },
    /// The destination of a state mapping lacks the name of a source entry.
    StateNameMissing { name: Listing<char> },
    /// A state mapping pairs different types at a source entry.
    StateMappingMismatch { name: Listing<char> },
    /// A state path repeats an earlier one.
    DuplicateStatePath { path: Listing<char> },
    /// No zero value is defined for state of this element type.
    CannotInitialize { dtype: DType },
    /// A fixed binding does not have the type of the input.
    BoundInput { index: usize },
    /// A cache trim stopped at a failed removal, after some removals.
    TrimFailed { removed: u64, reason: String },
    /// An operation on the files of a cache failed.
    CacheStorage { operation: &'static str, reason: String },
    /// A compiler computes in F16 or BF16 only.
    ComputeDType { dtype: DType },
    /// A single-output run was asked of an executable with another number of
    /// outputs.
    SingleOutputRequired { actual: usize },
    /// A run on F32 host data was asked of an executable with another input.
    F32InputRequired { index: usize, dtype: DType },
    /// An executable was given the wrong number of inputs.
    ExecutableInputCount { expected: usize, actual: usize },
    /// An input does not have the shape that the executable expects.
    ExecutableInputShape { index: usize, expected: Listing<i64>, actual: Listing<i64> },
    /// An input does not have the element type that the executable expects.
    ExecutableInputDType { index: usize, expected: DType, actual: DType },
    /// A device of a sharded execution returned the wrong number of outputs.
    ShardedOutputCount { device: usize, expected: usize, actual: usize },
    /// An optimized program cannot be decoded in its format.
    OptimizedProgramDecode { format: String, reason: String },
    /// An optimized program with configuration has no module.
    MissingOptimizedHloModule,
    /// The format of an optimized program is unknown.
    UnsupportedOptimizedProgram { format: String },
    /// A client has fewer devices than a mesh requires.
    MeshDevices { required: usize, available: usize },
    /// A backend name is registered more than once.
    DuplicateBackend { name: Listing<char> },
    /// The default backend is not registered.
    DefaultBackendMissing { name: Listing<char> },
    /// A backend is not registered.
    BackendNotRegistered { name: Listing<char> },
    /// A device is not registered.
    DeviceNotRegistered { device: NamedDevice },
    /// A device does not belong to its backend.
    ForeignDevice { device: NamedDevice },
    /// An input is not resident on the device of the run.
    InputNotResident { index: usize, device: NamedDevice },
    /// An input does not have the shape or element type of the program.
    InputMetadata { index: usize },
    /// Tensors belong to different implicit lazy sessions.
    LazySessionMismatch,
    /// The intermediate representation refused the operation.
    Ir { source: IrError },
}

/// An argument failure with a fixed explanation.
pub open spec fn invalid(message: &'static str) -> Error {
    Error::InvalidArgument { message }
}

/// The argument failure with the given explanation.
pub(crate) fn err(message: &'static str) -> (r: Error)
    ensures
        r == invalid(message),
{
    Error::InvalidArgument { message }
}

} // verus!
