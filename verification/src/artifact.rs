//! The exported form of an executable: native code with the types of its inputs
//! and the number of its outputs.
use crate::dtype::DType;
use crate::envelope::{
    block, leb, lemma_front, plain_block, put_block, put_plain, put_varint, skip_unknown, skipped,
    take_varint, taken_block, varint, version_field,
};
use crate::error::{err, invalid, Error};
use crate::executable::Executable;
use crate::graph::{TensorType, TypeModel};
use crate::interface::types_view;
use crate::op::copied;
use crate::shape::{bad_shape, elements, volume};
use vstd::prelude::*;

verus! {

/// The fields of an exported executable. Each input is the encoded form of its
/// shape.
#[derive(Debug)]
pub struct Artifact {
    pub version: u32,
    pub native: Vec<u8>,
    pub inputs: Vec<Vec<u8>>,
    pub output_count: u64,
}

/// The content of the fields.
#[verifier::ext_equal]
pub ghost struct ArtifactModel {
    pub version: u32,
    pub native: Seq<u8>,
    pub inputs: Seq<Seq<u8>>,
    pub output_count: u64,
}

impl View for Artifact {
    type V = ArtifactModel;

    open spec fn view(&self) -> ArtifactModel {
        ArtifactModel {
            version: self.version,
            native: self.native@,
            inputs: Seq::new(self.inputs@.len(), |k: int| self.inputs@[k]@),
            output_count: self.output_count,
        }
    }
}

/// The first `count` inputs, each in a field of its own.
pub open spec fn input_blocks(inputs: Seq<Seq<u8>>, count: nat) -> Seq<u8>
    decreases count,
{
    if count == 0 {
        Seq::empty()
    } else {
        input_blocks(inputs, (count - 1) as nat) + block(3, inputs[count - 1])
    }
}

/// The number of outputs, left out where it is zero.
pub open spec fn count_field(count: u64) -> Seq<u8> {
    if count == 0 {
        Seq::empty()
    } else {
        varint(32) + varint(count as nat)
    }
}

/// The exported bytes of the fields.
pub open spec fn exported(a: ArtifactModel) -> Seq<u8> {
    version_field(a.version) + (plain_block(2, a.native) + (input_blocks(
        a.inputs,
        a.inputs.len(),
    ) + count_field(a.output_count)))
}

/// Fields without contents.
pub open spec fn empty_artifact() -> ArtifactModel {
    ArtifactModel { version: 0, native: Seq::empty(), inputs: Seq::empty(), output_count: 0 }
}

/// The field at the front of bytes read into the fields, and what follows it.
pub open spec fn field_merged(a: ArtifactModel, tag: nat, wire: nat, bytes: Seq<u8>) -> Option<
    (ArtifactModel, Seq<u8>),
> {
    if tag == 1 || tag == 4 {
        if wire != 0 {
            None
        } else {
            match leb(bytes, 10) {
                None => None,
                Some((value, used)) => {
                    let next = if tag == 1 {
                        ArtifactModel { version: (value % 0x1_0000_0000) as u32, ..a }
                    } else {
                        ArtifactModel { output_count: value as u64, ..a }
                    };
                    Some((next, bytes.skip(used as int)))
                },
            }
        }
    } else if tag == 2 || tag == 3 {
        if wire != 2 {
            None
        } else {
            match taken_block(bytes) {
                None => None,
                Some((contents, rest)) => {
                    let next = if tag == 2 {
                        ArtifactModel { native: contents, ..a }
                    } else {
                        ArtifactModel { inputs: a.inputs.push(contents), ..a }
                    };
                    Some((next, rest))
                },
            }
        }
    } else {
        match skipped(bytes, tag as u32, wire as u64) {
            None => None,
            Some(left) => Some((a, bytes.skip(bytes.len() - left))),
        }
    }
}

/// One tagged field read into the fields, and what follows it.
pub open spec fn next_field(a: ArtifactModel, bytes: Seq<u8>) -> Option<(ArtifactModel, Seq<u8>)> {
    match leb(bytes, 10) {
        None => None,
        Some((key, used)) => if key > u32::MAX || key % 8 > 5 || key / 8 == 0 {
            None
        } else {
            field_merged(a, key / 8, key % 8, bytes.skip(used as int))
        },
    }
}

/// All fields read. Inputs accumulate; of another tag the last field counts.
pub open spec fn all_fields(a: ArtifactModel, bytes: Seq<u8>) -> Option<ArtifactModel>
    decreases bytes.len(),
{
    if bytes.len() == 0 {
        Some(a)
    } else {
        match next_field(a, bytes) {
            None => None,
            Some((next, rest)) => if rest.len() >= bytes.len() {
                None
            } else {
                all_fields(next, rest)
            },
        }
    }
}

/// The fields that bytes export, if they export any.
pub open spec fn imported_fields(bytes: Seq<u8>) -> Option<ArtifactModel> {
    all_fields(empty_artifact(), bytes)
}

/// A field of bytes in front of more bytes is read off.
proof fn lemma_block_read(a: ArtifactModel, tag: nat, contents: Seq<u8>, rest: Seq<u8>)
    requires
        tag == 2 || tag == 3,
        contents.len() <= u64::MAX,
    ensures
        tag == 2 ==> all_fields(a, block(tag, contents) + rest) == all_fields(
            ArtifactModel { native: contents, ..a },
            rest,
        ),
        tag == 3 ==> all_fields(a, block(tag, contents) + rest) == all_fields(
            ArtifactModel { inputs: a.inputs.push(contents), ..a },
            rest,
        ),
{
    let bytes = block(tag, contents) + rest;
    let after_key = varint(contents.len()) + (contents + rest);
    let key = tag * 8 + 2;
    assert(bytes =~= varint(key) + after_key);
    lemma_front(key, after_key);
    lemma_front(contents.len(), contents + rest);
    assert((contents + rest).take(contents.len() as int) =~= contents);
    assert((contents + rest).skip(contents.len() as int) =~= rest);
    assert(taken_block(after_key) == Some((contents, rest)));
    assert(key / 8 == tag && key % 8 == 2);
    assert(bytes.len() > rest.len());
}

/// A number in front of more bytes is read off.
proof fn lemma_number_read(a: ArtifactModel, tag: nat, value: nat, rest: Seq<u8>)
    requires
        tag == 1 && value <= u32::MAX || tag == 4 && value <= u64::MAX,
    ensures
        tag == 1 ==> all_fields(a, (varint(8) + varint(value)) + rest) == all_fields(
            ArtifactModel { version: value as u32, ..a },
            rest,
        ),
        tag == 4 ==> all_fields(a, (varint(32) + varint(value)) + rest) == all_fields(
            ArtifactModel { output_count: value as u64, ..a },
            rest,
        ),
{
    let key: nat = tag * 8;
    let bytes = (varint(key) + varint(value)) + rest;
    let after_key = varint(value) + rest;
    assert(bytes =~= varint(key) + after_key);
    lemma_front(key, after_key);
    lemma_front(value, rest);
    assert(key / 8 == tag && key % 8 == 0);
    assert(bytes.len() > rest.len());
}

/// The inputs in front of more bytes are read off, in order.
proof fn lemma_inputs_read(a: ArtifactModel, inputs: Seq<Seq<u8>>, count: nat, rest: Seq<u8>)
    requires
        count <= inputs.len(),
        a.inputs.len() == 0,
        forall|k: int| 0 <= k < inputs.len() ==> (#[trigger] inputs[k]).len() <= u64::MAX,
    ensures
        all_fields(a, input_blocks(inputs, count) + rest) == all_fields(
            ArtifactModel { inputs: inputs.take(count as int), ..a },
            rest,
        ),
    decreases count,
{
    if count == 0 {
        assert(input_blocks(inputs, 0) + rest =~= rest);
        assert(ArtifactModel { inputs: inputs.take(0), ..a } =~= a);
    } else {
        let before = (count - 1) as nat;
        let last = inputs[count - 1];
        let tail = block(3, last) + rest;
        assert(input_blocks(inputs, count) + rest =~= input_blocks(inputs, before) + tail);
        lemma_inputs_read(a, inputs, before, tail);
        let middle = ArtifactModel { inputs: inputs.take(before as int), ..a };
        lemma_block_read(middle, 3, last, rest);
        assert(inputs.take(before as int).push(last) =~= inputs.take(count as int));
    }
}

/// Exported fields are read back.
pub proof fn exported_fields_are_read_back(a: ArtifactModel)
    requires
        a.native.len() <= u64::MAX,
        forall|k: int| 0 <= k < a.inputs.len() ==> (#[trigger] a.inputs[k]).len() <= u64::MAX,
    ensures
        imported_fields(exported(a)) == Some(a),
{
    let r4 = count_field(a.output_count);
    let r3 = input_blocks(a.inputs, a.inputs.len()) + r4;
    let r2 = plain_block(2, a.native) + r3;
    let e0 = empty_artifact();
    let e1 = ArtifactModel { version: a.version, ..e0 };
    if a.version == 0 {
        assert(version_field(a.version) + r2 =~= r2);
        assert(e1 == e0);
    } else {
        lemma_number_read(e0, 1, a.version as nat, r2);
    }
    let e2 = ArtifactModel { native: a.native, ..e1 };
    if a.native.len() == 0 {
        assert(plain_block(2, a.native) + r3 =~= r3);
        assert(e2 =~= e1);
    } else {
        lemma_block_read(e1, 2, a.native, r3);
    }
    lemma_inputs_read(e2, a.inputs, a.inputs.len(), r4);
    assert(a.inputs.take(a.inputs.len() as int) =~= a.inputs);
    let e3 = ArtifactModel { inputs: a.inputs, ..e2 };
    if a.output_count == 0 {
        assert(all_fields(e3, r4) == Some(e3));
        assert(e3 =~= a);
    } else {
        assert(r4 =~= r4 + Seq::<u8>::empty());
        lemma_number_read(e3, 4, a.output_count as nat, Seq::empty());
        let e4 = ArtifactModel { output_count: a.output_count, ..e3 };
        assert(all_fields(e4, Seq::empty()) == Some(e4));
        assert(e4 =~= a);
    }
}

/// Fields being read.
struct Reading {
    artifact: Artifact,
    left: usize,
}

/// Read the rest of a tagged field.
fn read_field(artifact: Artifact, tag: u32, wire: u64, bytes: &[u8]) -> (r: Option<Reading>)
    requires
        tag >= 1,
        wire <= 5,
    ensures
        match r {
            Some(reading) => {
                &&& reading.left <= bytes@.len()
                &&& field_merged(artifact@, tag as nat, wire as nat, bytes@) == Some(
                    (reading.artifact@, bytes@.skip(bytes@.len() - reading.left)),
                )
            },
            None => field_merged(artifact@, tag as nat, wire as nat, bytes@) is None,
        },
{
    if tag == 1 || tag == 4 {
        if wire != 0 {
            return None;
        }
        let (value, left) = take_varint(bytes)?;
        let artifact = if tag == 1 {
            Artifact { version: (value % 0x1_0000_0000) as u32, ..artifact }
        } else {
            Artifact { output_count: value, ..artifact }
        };
        return Some(Reading { artifact, left });
    }
    if tag > 4 {
        let left: usize = skip_unknown(bytes, tag, wire)?;
        return Some(Reading { artifact, left });
    }
    if wire != 2 {
        return None;
    }
    let (length, left) = take_varint(bytes)?;
    let start: usize = bytes.len() - left;
    if length > left as u64 {
        return None;
    }
    let size: usize = length as usize;
    let ghost rest = bytes@.skip(start as int);
    let contents: Vec<u8> = vstd::slice::slice_to_vec(
        vstd::slice::slice_subrange(bytes, start, start + size),
    );
    proof {
        assert(contents@ =~= rest.take(size as int));
        assert(rest.skip(size as int) =~= bytes@.skip(bytes@.len() - (left - size)));
        assert(taken_block(bytes@) == Some((contents@, rest.skip(size as int))));
    }
    let ghost before = artifact@;
    let ghost found = contents@;
    let mut artifact = artifact;
    if tag == 2 {
        artifact.native = contents;
        assert(artifact@ =~= ArtifactModel { native: found, ..before });
    } else {
        artifact.inputs.push(contents);
        assert(artifact@ =~= ArtifactModel { inputs: before.inputs.push(found), ..before });
    }
    Some(Reading { artifact, left: left - size })
}

impl Artifact {
    /// The exported bytes.
    pub fn encode(&self) -> (r: Vec<u8>)
        ensures
            r@ == exported(self@),
    {
        let mut out: Vec<u8> = Vec::new();
        if self.version != 0 {
            put_varint(8, &mut out);
            put_varint(self.version as u64, &mut out);
        }
        assert(out@ =~= version_field(self.version));
        put_plain(&mut out, 2, self.native.as_slice());
        let ghost front = out@;
        let ghost inputs = self@.inputs;
        let mut i: usize = 0;
        assert(out@ =~= front + input_blocks(inputs, 0));
        while i < self.inputs.len()
            invariant
                inputs == self@.inputs,
                i <= self.inputs@.len(),
                out@ == front + input_blocks(inputs, i as nat),
            decreases self.inputs@.len() - i,
        {
            let ghost so_far = out@;
            put_block(&mut out, 3, self.inputs[i].as_slice());
            i += 1;
            proof {
                assert(inputs[i - 1] == self.inputs@[i - 1]@);
                assert(out@ =~= front + input_blocks(inputs, i as nat));
            }
        }
        if self.output_count != 0 {
            put_varint(32, &mut out);
            put_varint(self.output_count, &mut out);
        }
        assert(out@ =~= exported(self@));
        out
    }

    /// The fields that bytes export.
    pub fn decode(bytes: &[u8]) -> (r: Result<Artifact, Error>)
        ensures
            match r {
                Ok(artifact) => imported_fields(bytes@) == Some(artifact@),
                Err(e) => imported_fields(bytes@) is None && e == invalid("invalid tensor artifact"),
            },
    {
        let mut artifact = Artifact {
            version: 0,
            native: Vec::new(),
            inputs: Vec::new(),
            output_count: 0,
        };
        assert(artifact@ =~= empty_artifact());
        let mut at: usize = 0;
        assert(bytes@.skip(0) =~= bytes@);
        while at < bytes.len()
            invariant
                at <= bytes@.len(),
                imported_fields(bytes@) == all_fields(artifact@, bytes@.skip(at as int)),
            decreases bytes@.len() - at,
        {
            let ghost before = bytes@.skip(at as int);
            let front: &[u8] = vstd::slice::slice_subrange(bytes, at, bytes.len());
            assert(front@ =~= before);
            let (key, left) = match take_varint(front) {
                Some(found) => found,
                None => {
                    return Err(err("invalid tensor artifact"));
                },
            };
            if key > u32::MAX as u64 || key % 8 > 5 || key / 8 == 0 {
                return Err(err("invalid tensor artifact"));
            }
            let tag: u32 = (key / 8) as u32;
            let wire: u64 = key % 8;
            let start: usize = bytes.len() - left;
            let ghost rest = bytes@.skip(start as int);
            assert(before.skip(before.len() - left) =~= rest);
            let tail: &[u8] = vstd::slice::slice_subrange(bytes, start, bytes.len());
            assert(tail@ =~= rest);
            match read_field(artifact, tag, wire, tail) {
                None => {
                    return Err(err("invalid tensor artifact"));
                },
                Some(reading) => {
                    assert(rest.skip(rest.len() - reading.left) =~= bytes@.skip(
                        bytes@.len() - reading.left,
                    ));
                    artifact = reading.artifact;
                    at = bytes.len() - reading.left;
                },
            }
        }
        assert(bytes@.skip(at as int).len() == 0);
        Ok(artifact)
    }
}

/// The element type that a shape names.
#[derive(Clone, Copy, PartialEq, Eq, Structural, Debug)]
pub enum PrimitiveType {
    U8,
    F16,
    F32,
    S32,
    Bf16,
    Other,
}

/// The decoded shape of an input.
#[derive(Debug)]
pub struct ShapeProto {
    pub element_type: PrimitiveType,
    pub dimensions: Vec<i64>,
    /// How many shapes a tuple of shapes holds; an array has none.
    pub tuple_shapes: usize,
    pub is_dynamic_dimension: Vec<bool>,
}

/// The content of a decoded shape.
#[verifier::ext_equal]
pub ghost struct ShapeModel {
    pub element_type: PrimitiveType,
    pub dimensions: Seq<i64>,
    pub tuple_shapes: nat,
    pub dynamic: nat,
}

impl View for ShapeProto {
    type V = ShapeModel;

    open spec fn view(&self) -> ShapeModel {
        ShapeModel {
            element_type: self.element_type,
            dimensions: self.dimensions@,
            tuple_shapes: self.tuple_shapes as nat,
            dynamic: self.is_dynamic_dimension@.len(),
        }
    }
}

/// The contents of decoded shapes.
pub open spec fn shapes_view(shapes: Seq<ShapeProto>) -> Seq<ShapeModel> {
    Seq::new(shapes.len(), |k: int| shapes[k]@)
}

/// The element type of the library that a named one stands for.
pub open spec fn dtype_named(element: PrimitiveType) -> Option<DType> {
    match element {
        PrimitiveType::U8 => Some(DType::U8),
        PrimitiveType::F16 => Some(DType::F16),
        PrimitiveType::F32 => Some(DType::F32),
        PrimitiveType::S32 => Some(DType::I32),
        PrimitiveType::Bf16 => Some(DType::BF16),
        PrimitiveType::Other => None,
    }
}

/// The name of an element type.
pub open spec fn name_of(dtype: DType) -> PrimitiveType {
    match dtype {
        DType::U8 => PrimitiveType::U8,
        DType::F16 => PrimitiveType::F16,
        DType::F32 => PrimitiveType::F32,
        DType::I32 => PrimitiveType::S32,
        DType::BF16 => PrimitiveType::Bf16,
    }
}

/// The type that a shape describes, or why it describes none.
pub open spec fn shape_type(shape: ShapeModel) -> Result<TypeModel, Error> {
    match dtype_named(shape.element_type) {
        None => Err(invalid("unsupported artifact input dtype")),
        Some(dtype) => if volume(shape.dimensions) is None {
            Err(bad_shape())
        } else if shape.tuple_shapes > 0 || shape.dynamic > 0 {
            Err(invalid("artifact inputs must be static arrays"))
        } else {
            Ok(TypeModel { dims: shape.dimensions, dtype })
        },
    }
}

/// The types that the first `count` shapes describe, or the first failure.
pub open spec fn shape_types(shapes: Seq<ShapeModel>, count: nat) -> Result<Seq<TypeModel>, Error>
    decreases count,
{
    if count == 0 {
        Ok(Seq::empty())
    } else {
        match shape_types(shapes, (count - 1) as nat) {
            Err(e) => Err(e),
            Ok(types) => match shape_type(shapes[count - 1]) {
                Err(e) => Err(e),
                Ok(ty) => Ok(types.push(ty)),
            },
        }
    }
}

/// An early failure is that of the whole list.
proof fn lemma_shape_failure(shapes: Seq<ShapeModel>, early: nat, count: nat)
    requires
        early <= count,
        shape_types(shapes, early) is Err,
    ensures
        shape_types(shapes, count) == shape_types(shapes, early),
    decreases count - early,
{
    if early < count {
        lemma_shape_failure(shapes, early + 1, count);
    }
}

/// The signature that fields and decoded shapes describe, or why they describe
/// none.
pub open spec fn restored_signature(a: ArtifactModel, shapes: Seq<ShapeModel>) -> Result<
    (Seq<TypeModel>, usize),
    Error,
> {
    if a.version != 1 || a.native.len() == 0 || a.output_count == 0 {
        Err(invalid("unsupported or incomplete tensor artifact"))
    } else if a.output_count > usize::MAX {
        Err(invalid("artifact output count overflow"))
    } else {
        match shape_types(shapes, shapes.len()) {
            Err(e) => Err(e),
            Ok(types) => Ok((types, a.output_count as usize)),
        }
    }
}

/// The shape of a type.
pub open spec fn type_shape(ty: TypeModel) -> ShapeModel {
    ShapeModel {
        element_type: name_of(ty.dtype),
        dimensions: ty.dims,
        tuple_shapes: 0,
        dynamic: 0,
    }
}

/// The shapes of a list of types.
pub open spec fn type_shapes(types: Seq<TypeModel>) -> Seq<ShapeModel> {
    Seq::new(types.len(), |k: int| type_shape(types[k]))
}

/// The signature of an executable survives its export.
pub proof fn exported_signatures_are_restored(
    types: Seq<TypeModel>,
    outputs: usize,
    native: Seq<u8>,
    inputs: Seq<Seq<u8>>,
)
    requires
        forall|k: int| 0 <= k < types.len() ==> volume((#[trigger] types[k]).dims) is Some,
        outputs > 0,
        native.len() > 0,
    ensures
        restored_signature(
            ArtifactModel { version: 1, native, inputs, output_count: outputs as u64 },
            type_shapes(types),
        ) == Ok::<(Seq<TypeModel>, usize), Error>((types, outputs)),
{
    lemma_shapes_restored(types, types.len());
    assert(types.take(types.len() as int) =~= types);
}

/// The types of exported shapes are restored.
proof fn lemma_shapes_restored(types: Seq<TypeModel>, count: nat)
    requires
        count <= types.len(),
        forall|k: int| 0 <= k < types.len() ==> volume((#[trigger] types[k]).dims) is Some,
    ensures
        shape_types(type_shapes(types), count) == Ok::<Seq<TypeModel>, Error>(
            types.take(count as int),
        ),
    decreases count,
{
    if count == 0 {
        assert(types.take(0) =~= Seq::<TypeModel>::empty());
    } else {
        lemma_shapes_restored(types, (count - 1) as nat);
        assert(types.take(count - 1).push(types[count - 1]) =~= types.take(count as int));
        assert(volume(types[count - 1].dims) is Some);
    }
}

/// The type that a shape describes.
fn checked_type(shape: &ShapeProto) -> (r: Result<TensorType, Error>)
    ensures
        match r {
            Ok(ty) => shape_type(shape@) == Ok::<TypeModel, Error>(ty@),
            Err(e) => shape_type(shape@) == Err::<TypeModel, Error>(e),
        },
{
    let dtype: DType = match shape.element_type {
        PrimitiveType::U8 => DType::U8,
        PrimitiveType::F16 => DType::F16,
        PrimitiveType::F32 => DType::F32,
        PrimitiveType::S32 => DType::I32,
        PrimitiveType::Bf16 => DType::BF16,
        PrimitiveType::Other => {
            return Err(err("unsupported artifact input dtype"));
        },
    };
    match elements(shape.dimensions.as_slice()) {
        Err(e) => {
            return Err(e);
        },
        Ok(_) => {},
    }
    if shape.tuple_shapes > 0 || shape.is_dynamic_dimension.len() > 0 {
        return Err(err("artifact inputs must be static arrays"));
    }
    Ok(TensorType { dims: copied(&shape.dimensions), dtype })
}

/// The signature that fields and decoded shapes describe.
pub fn restore_signature(artifact: &Artifact, shapes: &[ShapeProto]) -> (r: Result<
    (Vec<TensorType>, usize),
    Error,
>)
    ensures
        match r {
            Ok(pair) => restored_signature(artifact@, shapes_view(shapes@)) == Ok::<
                (Seq<TypeModel>, usize),
                Error,
            >((types_view(pair.0@), pair.1)),
            Err(e) => restored_signature(artifact@, shapes_view(shapes@)) == Err::<
                (Seq<TypeModel>, usize),
                Error,
            >(e),
        },
{
    if artifact.version != 1 || artifact.native.len() == 0 || artifact.output_count == 0 {
        return Err(err("unsupported or incomplete tensor artifact"));
    }
    if artifact.output_count > usize::MAX as u64 {
        return Err(err("artifact output count overflow"));
    }
    let ghost models = shapes_view(shapes@);
    let mut inputs: Vec<TensorType> = Vec::new();
    let mut i: usize = 0;
    assert(types_view(inputs@) =~= Seq::<TypeModel>::empty());
    while i < shapes.len()
        invariant
            models == shapes_view(shapes@),
            artifact.version == 1,
            artifact.native@.len() > 0,
            0 < artifact.output_count <= usize::MAX,
            i <= shapes@.len(),
            shape_types(models, i as nat) == Ok::<Seq<TypeModel>, Error>(types_view(inputs@)),
        decreases shapes@.len() - i,
    {
        assert(models[i as int] == shapes@[i as int]@);
        match checked_type(&shapes[i]) {
            Err(e) => {
                proof {
                    lemma_shape_failure(models, (i + 1) as nat, models.len());
                }
                return Err(e);
            },
            Ok(ty) => {
                let ghost before = types_view(inputs@);
                inputs.push(ty);
                assert(types_view(inputs@) =~= before.push(ty@));
            },
        }
        i += 1;
    }
    Ok((inputs, artifact.output_count as usize))
}

impl Executable {
    /// The shapes of the inputs, for an export.
    pub fn serialize_with_metadata(&self) -> (r: Vec<ShapeProto>)
        ensures
            shapes_view(r@) == type_shapes(self.input_types()),
    {
        let types: &Vec<TensorType> = self.types();
        let mut shapes: Vec<ShapeProto> = Vec::new();
        let mut i: usize = 0;
        while i < types.len()
            invariant
                i <= types@.len(),
                shapes@.len() == i,
                forall|k: int| 0 <= k < i ==> (#[trigger] shapes@[k])@ == type_shape(types@[k]@),
            decreases types@.len() - i,
        {
            let element_type: PrimitiveType = match types[i].dtype {
                DType::U8 => PrimitiveType::U8,
                DType::F16 => PrimitiveType::F16,
                DType::F32 => PrimitiveType::F32,
                DType::I32 => PrimitiveType::S32,
                DType::BF16 => PrimitiveType::Bf16,
            };
            let shape = ShapeProto {
                element_type,
                dimensions: copied(&types[i].dims),
                tuple_shapes: 0,
                is_dynamic_dimension: Vec::new(),
            };
            assert(shape@ =~= type_shape(types@[i as int]@));
            shapes.push(shape);
            i += 1;
        }
        assert(shapes_view(shapes@) =~= type_shapes(self.input_types()));
        shapes
    }

    /// The executable that an export describes, once its native code is loaded.
    pub fn deserialize_with_metadata(
        artifact: &Artifact,
        shapes: &[ShapeProto],
        client: u64,
        loaded: Result<(u64, usize), Error>,
    ) -> (r: Result<Executable, Error>)
        ensures
            match restored_signature(artifact@, shapes_view(shapes@)) {
                Err(e) => r == Err::<Executable, Error>(e),
                Ok((types, outputs)) => match loaded {
                    Err(e) => r == Err::<Executable, Error>(e),
                    Ok((handle, devices)) => {
                        &&& r matches Ok(executable)
                        &&& executable.key() == handle
                        &&& executable.owner() == client
                        &&& executable.spread() == devices
                        &&& executable.input_types() == types
                        &&& executable.outputs() == outputs
                    },
                },
            },
    {
        let (inputs, output_count): (Vec<TensorType>, usize) = restore_signature(
            artifact,
            shapes,
        )?;
        match loaded {
            Err(e) => Err(e),
            Ok((handle, devices)) => Ok(
                Executable::new(handle, client, devices, inputs, output_count),
            ),
        }
    }
}

} // verus!
