//! Element types and the rules by which an operation's element type follows
//! from those of its operands. No promotion is ever inserted.
use crate::error::Error;
use crate::listing::{listed, listing};
use crate::op::{op_name, operation_name, Binary, Op, OpModel};
use vstd::prelude::*;

verus! {

/// Runtime element type of a tensor.
#[derive(Clone, Copy, PartialEq, Eq, Structural, Debug)]
pub enum DType {
    U8,
    F16,
    BF16,
    F32,
    I32,
}

/// Whether every element type in the list is `dtype`.
pub open spec fn all_are(types: Seq<DType>, dtype: DType) -> bool {
    forall|i: int| 0 <= i < types.len() ==> types[i] == dtype
}

/// The element type of the first operand, F32 where there is none.
pub open spec fn leading(types: Seq<DType>) -> DType {
    if types.len() == 0 {
        DType::F32
    } else {
        types[0]
    }
}

/// Whether the element type is a floating-point storage type.
pub open spec fn is_floating(dtype: DType) -> bool {
    dtype == DType::F16 || dtype == DType::BF16 || dtype == DType::F32
}

/// What an operation asks of the element types of its operands.
#[derive(Clone, Copy, PartialEq, Eq, Structural, Debug)]
pub enum OperandRule {
    /// No operands.
    Nothing,
    /// One operand of this type.
    One(DType),
    /// Two operands of this type.
    Two(DType),
    /// One operand, converted to this type.
    Converted(DType),
    /// Two operands of one type other than BF16.
    EqualPair,
    /// Three or four F32 operands.
    Attention,
    /// One operand of any type.
    Single,
    /// One or more operands of one type.
    Uniform,
    /// A value and its I32 indices.
    Indexed,
    /// A value followed by I32 indices.
    Sliced,
    /// A value, an update of its type, and I32 indices.
    Updated,
    /// An F32 mask and two values of one type.
    Selected,
    /// F32 values and their I32 indices.
    Scattered,
    /// One or more operands of any types.
    Nonempty,
    /// Built elsewhere, never from operands.
    Never,
    /// F32 operands only.
    Floats,
}

impl OperandRule {
    /// Whether operands of these element types obey the rule.
    pub open spec fn accepts(self, types: Seq<DType>) -> bool {
        match self {
            OperandRule::Nothing => types.len() == 0,
            OperandRule::One(dtype) => types.len() == 1 && types[0] == dtype,
            OperandRule::Two(dtype) => types.len() == 2 && types[0] == dtype && types[1] == dtype,
            OperandRule::Converted(dtype) => types.len() == 1 && types[0] != DType::I32
                && is_floating(dtype),
            OperandRule::EqualPair => types.len() == 2 && types[0] == types[1] && types[0]
                != DType::BF16,
            OperandRule::Attention => (types.len() == 3 || types.len() == 4) && all_are(
                types,
                DType::F32,
            ),
            OperandRule::Single => types.len() == 1,
            OperandRule::Uniform => types.len() > 0 && all_are(types, types[0]),
            OperandRule::Indexed => types.len() == 2 && types[1] == DType::I32,
            OperandRule::Sliced => types.len() > 0 && all_are(types.skip(1), DType::I32),
            OperandRule::Updated => types.len() >= 2 && types[1] == types[0] && all_are(
                types.skip(2),
                DType::I32,
            ),
            OperandRule::Selected => types.len() == 3 && types[0] == DType::F32 && types[1]
                == types[2],
            OperandRule::Scattered => types.len() == 2 && types[0] == DType::F32 && types[1]
                == DType::I32,
            OperandRule::Nonempty => types.len() > 0,
            OperandRule::Never => false,
            OperandRule::Floats => all_are(types, DType::F32),
        }
    }

    /// Whether operands of these element types obey the rule.
    pub fn admits(self, types: &[DType]) -> (r: bool)
        ensures
            r == self.accepts(types@),
    {
        let count: usize = types.len();
        assert(types@.skip(0) =~= types@);
        match self {
            OperandRule::Nothing => count == 0,
            OperandRule::One(dtype) => count == 1 && types[0] == dtype,
            OperandRule::Two(dtype) => count == 2 && types[0] == dtype && types[1] == dtype,
            OperandRule::Converted(dtype) => count == 1 && types[0] != DType::I32 && (dtype
                == DType::F16 || dtype == DType::BF16 || dtype == DType::F32),
            OperandRule::EqualPair => count == 2 && types[0] == types[1] && types[0]
                != DType::BF16,
            OperandRule::Attention => (count == 3 || count == 4) && all_from(
                types,
                0,
                DType::F32,
            ),
            OperandRule::Single => count == 1,
            OperandRule::Uniform => count > 0 && all_from(types, 0, types[0]),
            OperandRule::Indexed => count == 2 && types[1] == DType::I32,
            OperandRule::Sliced => count > 0 && all_from(types, 1, DType::I32),
            OperandRule::Updated => count >= 2 && types[1] == types[0] && all_from(
                types,
                2,
                DType::I32,
            ),
            OperandRule::Selected => count == 3 && types[0] == DType::F32 && types[1] == types[2],
            OperandRule::Scattered => count == 2 && types[0] == DType::F32 && types[1]
                == DType::I32,
            OperandRule::Nonempty => count > 0,
            OperandRule::Never => false,
            OperandRule::Floats => all_from(types, 0, DType::F32),
        }
    }
}

/// The rule on an operation's operands.
pub open spec fn rule_of(op: OpModel) -> OperandRule {
    match op {
        OpModel::ConstantF32(..) | OpModel::ConstantI32(..) | OpModel::Iota { .. } => OperandRule::Nothing,
        OpModel::IndexToFloat => OperandRule::One(DType::I32),
        OpModel::Bf16ToFloat => OperandRule::One(DType::BF16),
        OpModel::Convert { dtype } => OperandRule::Converted(dtype),
        OpModel::IntegerBinary(..) | OpModel::IndexLessEqualMask => OperandRule::Two(DType::I32),
        OpModel::CompareMask(..) => OperandRule::EqualPair,
        OpModel::ArgMax { .. } | OpModel::SortedIndices { .. } => OperandRule::One(DType::F32),
        OpModel::Attention { .. } => OperandRule::Attention,
        OpModel::Reshape
        | OpModel::StopGradient
        | OpModel::OptimizationBarrier
        | OpModel::Broadcast { .. }
        | OpModel::Transpose { .. }
        | OpModel::Reverse { .. }
        | OpModel::Slice(..)
        | OpModel::GetDimensionSize { .. } => OperandRule::Single,
        OpModel::Concatenate { .. } => OperandRule::Uniform,
        OpModel::Take { .. } | OpModel::TakeAlongAxis { .. } => OperandRule::Indexed,
        OpModel::DynamicSlice => OperandRule::Sliced,
        OpModel::DynamicUpdateSlice => OperandRule::Updated,
        OpModel::Select => OperandRule::Selected,
        OpModel::If | OpModel::MultiResult => OperandRule::Never,
        OpModel::CustomCall { .. } => OperandRule::Nonempty,
        OpModel::Binary(Binary::Div) => OperandRule::Floats,
        OpModel::Binary(..) => OperandRule::EqualPair,
        OpModel::GatherGradient { .. } => OperandRule::Scattered,
        _ => OperandRule::Floats,
    }
}

/// Whether an operation accepts operands of these element types.
pub open spec fn accepts(op: OpModel, types: Seq<DType>) -> bool {
    rule_of(op).accepts(types)
}

/// The element type that an operation produces from operands of these types.
pub open spec fn produces(op: OpModel, types: Seq<DType>) -> DType {
    match op {
        OpModel::ConstantI32(..)
        | OpModel::Iota { .. }
        | OpModel::IntegerBinary(..)
        | OpModel::ArgMax { .. }
        | OpModel::SortedIndices { .. }
        | OpModel::GetDimensionSize { .. } => DType::I32,
        OpModel::Convert { dtype } => dtype,
        OpModel::CustomCall { result_dtype } => result_dtype,
        OpModel::Select => types[1],
        OpModel::Reshape
        | OpModel::StopGradient
        | OpModel::OptimizationBarrier
        | OpModel::Broadcast { .. }
        | OpModel::Transpose { .. }
        | OpModel::Reverse { .. }
        | OpModel::Slice(..)
        | OpModel::Concatenate { .. }
        | OpModel::Take { .. }
        | OpModel::TakeAlongAxis { .. }
        | OpModel::DynamicSlice
        | OpModel::DynamicUpdateSlice => leading(types),
        OpModel::Binary(op) => if op == Binary::Div {
            DType::F32
        } else {
            leading(types)
        },
        _ => DType::F32,
    }
}

/// The element type of an operation's result, or its refusal.
pub open spec fn inferred(op: OpModel, types: Seq<DType>) -> Result<DType, Error> {
    if accepts(op, types) {
        Ok(produces(op, types))
    } else {
        Err(Error::UnsupportedOperandTypes { operation: op_name(op), types: listing(types) })
    }
}

/// Whether every element type from `start` on is `dtype`.
fn all_from(types: &[DType], start: usize, dtype: DType) -> (r: bool)
    requires
        start <= types@.len(),
    ensures
        r == all_are(types@.skip(start as int), dtype),
{
    let mut i: usize = start;
    while i < types.len()
        invariant
            start <= i <= types@.len(),
            forall|j: int| start <= j < i ==> types@[j] == dtype,
        decreases types@.len() - i,
    {
        if types[i] != dtype {
            assert(types@.skip(start as int)[i - start] != dtype);
            return false;
        }
        i += 1;
    }
    assert forall|j: int| 0 <= j < types@.skip(start as int).len() implies types@.skip(
        start as int,
    )[j] == dtype by {
        assert(types@[j + start] == dtype);
    }
    true
}

/// The rule on an operation's operands.
fn operand_rule(op: &Op) -> (r: OperandRule)
    ensures
        r == rule_of(op@),
{
    match op {
        Op::ConstantF32(..) | Op::ConstantI32(..) | Op::Iota { .. } => OperandRule::Nothing,
        Op::IndexToFloat => OperandRule::One(DType::I32),
        Op::Bf16ToFloat => OperandRule::One(DType::BF16),
        Op::Convert { dtype } => OperandRule::Converted(*dtype),
        Op::IntegerBinary(..) | Op::IndexLessEqualMask => OperandRule::Two(DType::I32),
        Op::CompareMask(..) => OperandRule::EqualPair,
        Op::ArgMax { .. } | Op::SortedIndices { .. } => OperandRule::One(DType::F32),
        Op::Attention { .. } => OperandRule::Attention,
        Op::Reshape
        | Op::StopGradient
        | Op::OptimizationBarrier
        | Op::Broadcast { .. }
        | Op::Transpose { .. }
        | Op::Reverse { .. }
        | Op::Slice(..)
        | Op::GetDimensionSize { .. } => OperandRule::Single,
        Op::Concatenate { .. } => OperandRule::Uniform,
        Op::Take { .. } | Op::TakeAlongAxis { .. } => OperandRule::Indexed,
        Op::DynamicSlice => OperandRule::Sliced,
        Op::DynamicUpdateSlice => OperandRule::Updated,
        Op::Select => OperandRule::Selected,
        Op::If | Op::MultiResult => OperandRule::Never,
        Op::CustomCall { .. } => OperandRule::Nonempty,
        Op::Binary(Binary::Div) => OperandRule::Floats,
        Op::Binary(..) => OperandRule::EqualPair,
        Op::GatherGradient { .. } => OperandRule::Scattered,
        _ => OperandRule::Floats,
    }
}

/// The element type that an accepted operation produces.
fn produced(op: &Op, types: &[DType]) -> (r: DType)
    requires
        accepts(op@, types@),
    ensures
        r == produces(op@, types@),
{
    let first: DType = if types.len() == 0 {
        DType::F32
    } else {
        types[0]
    };
    match op {
        Op::ConstantI32(_)
        | Op::Iota { .. }
        | Op::IntegerBinary(_)
        | Op::ArgMax { .. }
        | Op::SortedIndices { .. }
        | Op::GetDimensionSize { .. } => DType::I32,
        Op::Convert { dtype } => *dtype,
        Op::CustomCall { result_dtype } => *result_dtype,
        Op::Select => types[1],
        Op::Reshape
        | Op::StopGradient
        | Op::OptimizationBarrier
        | Op::Broadcast { .. }
        | Op::Transpose { .. }
        | Op::Reverse { .. }
        | Op::Slice(_)
        | Op::Concatenate { .. }
        | Op::Take { .. }
        | Op::TakeAlongAxis { .. }
        | Op::DynamicSlice
        | Op::DynamicUpdateSlice => first,
        Op::Binary(kind) => match kind {
            Binary::Div => DType::F32,
            _ => first,
        },
        _ => DType::F32,
    }
}

/// Determine the result type of an operation, or refuse its operands.
pub fn infer(op: &Op, types: &[DType]) -> (r: Result<DType, Error>)
    ensures
        r == inferred(op@, types@),
{
    if operand_rule(op).admits(types) {
        Ok(produced(op, types))
    } else {
        Err(Error::UnsupportedOperandTypes { operation: operation_name(op), types: listed(types) })
    }
}

} // verus!
