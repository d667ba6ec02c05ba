//! Which tensors of other libraries can become host storage.
use crate::dtype::DType;
use crate::op::copied;
use vstd::prelude::*;

verus! {

/// What is wrong with a tensor descriptor.
#[derive(PartialEq, Eq, Debug)]
pub enum DescriptorFault {
    /// An extent is negative.
    NegativeDimension { axis: usize, value: i64 },
    /// There are other numbers of extents and strides.
    MismatchedStrides { shape_len: usize, strides_len: usize },
    /// The number of elements overflows.
    NumElementsOverflow,
    /// The descriptor was refused before its layout was read.
    Reported { text: String },
}

/// Failures of an import.
#[derive(PartialEq, Eq, Debug)]
pub enum ImportError {
    /// The tensor descriptor is invalid.
    InvalidDescriptor { source: DescriptorFault },
    /// The tensor is not in host memory.
    UnsupportedDevice { device_type: u32 },
    /// The element type has no counterpart.
    UnsupportedDType { dtype: DataType },
    /// The elements are vectors.
    VectorDType,
    /// The elements are not contiguous.
    NonCompact,
    /// The data pointer is invalid.
    InvalidData { source: String },
}

/// The type of the device that is host memory.
pub const HOST_DEVICE: u32 = 1;

/// The kind of an element type.
#[derive(Clone, Copy, PartialEq, Eq, Structural, Debug)]
pub enum DataTypeCode {
    Int,
    Uint,
    Float,
    Bfloat,
    /// Another kind, by its number.
    Other(u8),
}

/// An element type: its kind, its width and the number of its lanes.
#[derive(Clone, Copy, PartialEq, Eq, Structural, Debug)]
pub struct DataType {
    pub code: DataTypeCode,
    pub bits: u8,
    pub lanes: u16,
}

/// What is known of a foreign tensor with a valid descriptor.
#[derive(Debug)]
pub struct TensorView {
    pub device_type: u32,
    pub dtype: DataType,
    pub shape: Vec<i64>,
    /// The distances between elements along each axis, where the descriptor
    /// tells.
    pub strides: Option<Vec<i64>>,
    pub num_bytes: usize,
    /// Why the data pointer cannot be used, if it cannot.
    pub data_fault: Option<String>,
}

/// What an imported tensor is: its extents, its element type and its bytes.
#[derive(Debug)]
pub struct HostTensor {
    pub shape: Vec<i64>,
    pub dtype: DType,
    pub num_bytes: usize,
}

/// The number of elements behind one step along the axis before `axis`.
pub open spec fn elements_from(shape: Seq<i64>, axis: nat) -> int
    decreases shape.len() - axis,
{
    if axis >= shape.len() {
        1
    } else {
        shape[axis as int] * elements_from(shape, axis + 1)
    }
}

/// Whether strides are those of row-major order without gaps.
pub open spec fn row_major(shape: Seq<i64>, strides: Seq<i64>) -> bool {
    forall|axis: int|
        0 <= axis < shape.len() ==> #[trigger] strides[axis] == elements_from(
            shape,
            (axis + 1) as nat,
        )
}

/// The first axis, among the first `count`, with a negative extent.
pub open spec fn first_negative(shape: Seq<i64>, count: nat) -> Option<int>
    decreases count,
{
    if count == 0 {
        None
    } else {
        match first_negative(shape, (count - 1) as nat) {
            Some(axis) => Some(axis),
            None => if shape[count - 1] < 0 {
                Some(count - 1)
            } else {
                None
            },
        }
    }
}

/// Whether elements are contiguous in row-major order, or what is wrong with the
/// extents and strides. Without strides they are; so are no elements at all.
pub open spec fn compactness(shape: Seq<i64>, strides: Option<Seq<i64>>) -> Result<
    bool,
    DescriptorFault,
> {
    match first_negative(shape, shape.len()) {
        Some(axis) => Err(
            DescriptorFault::NegativeDimension { axis: axis as usize, value: shape[axis] },
        ),
        None => match strides {
            None => Ok(true),
            Some(strides) => if strides.len() != shape.len() {
                Err(
                    DescriptorFault::MismatchedStrides {
                        shape_len: shape.len() as usize,
                        strides_len: strides.len() as usize,
                    },
                )
            } else if shape.contains(0) {
                Ok(true)
            } else if elements_from(shape, 0) > i64::MAX {
                Err(DescriptorFault::NumElementsOverflow)
            } else {
                Ok(row_major(shape, strides))
            },
        },
    }
}

/// The numbers of an optional list.
pub open spec fn strides_view(strides: Option<&[i64]>) -> Option<Seq<i64>> {
    match strides {
        Some(list) => Some(list@),
        None => None,
    }
}

/// Whether elements are contiguous, by `dlpark::tensor::is_compact_strides`. It
/// fails at the first negative extent, on another number of strides than
/// extents, and where the number of elements overflows; otherwise it compares
/// with the row-major strides, unless there are no strides or no elements.
#[verifier::external_body]
fn is_compact(shape: &[i64], strides: Option<&[i64]>) -> (r: Result<bool, DescriptorFault>)
    ensures
        r == compactness(shape@, strides_view(strides)),
{
    match dlpark::tensor::is_compact_strides(shape, strides) {
        Ok(compact) => Ok(compact),
        Err(dlpark::tensor::Error::NegativeDimension { axis, value }) => {
            Err(DescriptorFault::NegativeDimension { axis, value })
        },
        Err(dlpark::tensor::Error::MismatchedStrides { shape_len, strides_len }) => {
            Err(DescriptorFault::MismatchedStrides { shape_len, strides_len })
        },
        Err(_) => Err(DescriptorFault::NumElementsOverflow),
    }
}

/// The element type of the library that a foreign one stands for.
pub open spec fn counterpart(dtype: DataType) -> Result<DType, ImportError> {
    if dtype.lanes != 1 {
        Err(ImportError::VectorDType)
    } else if dtype.code == DataTypeCode::Uint && dtype.bits == 8 {
        Ok(DType::U8)
    } else if dtype.code == DataTypeCode::Float && dtype.bits == 16 {
        Ok(DType::F16)
    } else if dtype.code == DataTypeCode::Float && dtype.bits == 32 {
        Ok(DType::F32)
    } else if dtype.code == DataTypeCode::Int && dtype.bits == 32 {
        Ok(DType::I32)
    } else if dtype.code == DataTypeCode::Bfloat && dtype.bits == 16 {
        Ok(DType::BF16)
    } else {
        Err(ImportError::UnsupportedDType { dtype })
    }
}

/// Different scalar element types of the library stand for different foreign
/// ones.
pub proof fn counterparts_differ(a: DataType, b: DataType)
    requires
        counterpart(a) is Ok,
        counterpart(a) == counterpart(b),
    ensures
        a == b,
{
}

/// The element type of the library that a foreign one stands for.
pub fn dtype_from_dlpack(dtype: DataType) -> (r: Result<DType, ImportError>)
    ensures
        r == counterpart(dtype),
{
    if dtype.lanes != 1 {
        return Err(ImportError::VectorDType);
    }
    match (dtype.code, dtype.bits) {
        (DataTypeCode::Uint, 8) => Ok(DType::U8),
        (DataTypeCode::Float, 16) => Ok(DType::F16),
        (DataTypeCode::Float, 32) => Ok(DType::F32),
        (DataTypeCode::Int, 32) => Ok(DType::I32),
        (DataTypeCode::Bfloat, 16) => Ok(DType::BF16),
        _ => Err(ImportError::UnsupportedDType { dtype }),
    }
}

/// The numbers of an optional list.
pub open spec fn owned_view(strides: Option<Vec<i64>>) -> Option<Seq<i64>> {
    match strides {
        Some(list) => Some(list@),
        None => None,
    }
}

/// Why a foreign tensor is refused.
pub open spec fn import_refusal(view: Result<TensorView, String>) -> Option<ImportError> {
    match view {
        Err(text) => Some(
            ImportError::InvalidDescriptor { source: DescriptorFault::Reported { text } },
        ),
        Ok(view) => if view.device_type != HOST_DEVICE {
            Some(ImportError::UnsupportedDevice { device_type: view.device_type })
        } else {
            match counterpart(view.dtype) {
                Err(e) => Some(e),
                Ok(_) => match compactness(view.shape@, owned_view(view.strides)) {
                    Err(source) => Some(ImportError::InvalidDescriptor { source }),
                    Ok(false) => Some(ImportError::NonCompact),
                    Ok(true) => match view.data_fault {
                        Some(source) => Some(ImportError::InvalidData { source }),
                        None => None,
                    },
                },
            }
        },
    }
}

/// The host tensor that a foreign tensor becomes. There is no view of one with
/// an invalid descriptor, only what was reported of it.
pub fn import(view: Result<TensorView, String>) -> (r: Result<HostTensor, ImportError>)
    ensures
        match r {
            Ok(tensor) => {
                &&& import_refusal(view) is None
                &&& view matches Ok(view)
                &&& tensor.shape@ == view.shape@
                &&& counterpart(view.dtype) == Ok::<DType, ImportError>(tensor.dtype)
                &&& tensor.num_bytes == view.num_bytes
            },
            Err(e) => import_refusal(view) == Some(e),
        },
{
    let view: TensorView = match view {
        Ok(view) => view,
        Err(text) => {
            return Err(
                ImportError::InvalidDescriptor { source: DescriptorFault::Reported { text } },
            );
        },
    };
    if view.device_type != HOST_DEVICE {
        return Err(ImportError::UnsupportedDevice { device_type: view.device_type });
    }
    let dtype: DType = match dtype_from_dlpack(view.dtype) {
        Ok(dtype) => dtype,
        Err(e) => {
            return Err(e);
        },
    };
    let strides: Option<&[i64]> = match &view.strides {
        Some(list) => Some(list.as_slice()),
        None => None,
    };
    match is_compact(view.shape.as_slice(), strides) {
        Err(source) => {
            return Err(ImportError::InvalidDescriptor { source });
        },
        Ok(compact) => {
            if !compact {
                return Err(ImportError::NonCompact);
            }
        },
    }
    match view.data_fault {
        Some(source) => Err(ImportError::InvalidData { source }),
        None => Ok(
            HostTensor { shape: copied(&view.shape), dtype, num_bytes: view.num_bytes },
        ),
    }
}

} // verus!
