//! Symbolic state: slots, parameters and the versions that a program writes.
use crate::dtype::DType;
use crate::error::{err, invalid, Error};
use crate::graph::{
    applied, constant, constant_i32, declared, iota, is_parameter, parameter_total, picked, relayed,
    scalar_i32, state_declared, types_of, values_of, Expr, Graph, Tensor, TensorType, TypeModel,
    Value,
};
use crate::interface::{all_local, ids_of};
use crate::op::{Op, OpModel, Scalar};
use crate::ops::{broadcasts, increasing};
use crate::shape::{bad_shape, same_dims, span, volume};
use crate::sound::sound;
use crate::text::{decimal, decimal_text, joined_text};
use vstd::prelude::*;

verus! {

broadcast use crate::graph::parameters_grow;

/// Identity of a state slot. Copies identify the same slot.
#[derive(Clone, Copy, PartialEq, Eq, Structural, Debug)]
pub struct StateSlot {
    pub owner: u64,
    pub index: usize,
}

impl StateSlot {
    /// The schema and the number of the slot.
    pub fn identity(&self) -> (r: (u64, usize))
        ensures
            r == (self.owner, self.index),
    {
        (self.owner, self.index)
    }
}

/// Where the runtime value of a parameter comes from.
#[derive(Clone, Copy, PartialEq, Eq, Structural, Debug)]
pub enum ParameterStorage {
    Input(usize),
    State(StateSlot),
}

/// Identity of a parameter within a process.
#[derive(Clone, Copy, PartialEq, Eq, Debug)]
pub struct ParameterId(pub (u64, bool, usize));

/// Identity and symbolic F32 value of a parameter. Copies are the same
/// parameter.
pub struct Parameter {
    owner: u64,
    storage: ParameterStorage,
    storage_dtype: DType,
    tensor: Tensor,
}

impl Parameter {
    /// The schema that the parameter belongs to.
    pub closed spec fn schema(self) -> u64 {
        self.owner
    }

    /// Where its runtime value comes from.
    pub closed spec fn place(self) -> ParameterStorage {
        self.storage
    }

    /// The element type of its runtime buffer.
    pub closed spec fn stored(self) -> DType {
        self.storage_dtype
    }

    /// Its symbolic value.
    pub closed spec fn value(self) -> Tensor {
        self.tensor
    }

    /// The element type of the runtime buffer, which may differ from the F32
    /// symbolic value.
    pub fn storage_dtype(&self) -> (r: DType)
        ensures
            r == self.stored(),
    {
        self.storage_dtype
    }

    /// The schema that the parameter belongs to.
    pub fn owner(&self) -> (r: u64)
        ensures
            r == self.schema(),
    {
        self.owner
    }

    /// Where the runtime value comes from.
    pub fn storage(&self) -> (r: ParameterStorage)
        ensures
            r == self.place(),
    {
        self.storage
    }

    /// Identity of the parameter: copies have the same one.
    pub fn id(&self) -> (r: ParameterId)
        ensures
            r == parameter_id(self.schema(), self.place()),
    {
        match self.storage {
            ParameterStorage::Input(index) => ParameterId((self.owner, false, index)),
            ParameterStorage::State(slot) => ParameterId((self.owner, true, slot.index)),
        }
    }

    /// The symbolic value at the start of an execution; later writes do not
    /// change it.
    pub fn tensor(&self) -> (r: &Tensor)
        ensures
            *r == self.value(),
    {
        &self.tensor
    }

    /// The state slot of a trainable parameter.
    pub fn state_slot(&self) -> (r: Option<StateSlot>)
        ensures
            r == (match self.place() {
                ParameterStorage::Input(_) => None,
                ParameterStorage::State(slot) => Some(slot),
            }),
    {
        match self.storage {
            ParameterStorage::Input(_) => None,
            ParameterStorage::State(slot) => Some(slot),
        }
    }
}

impl Clone for Parameter {
    /// The same parameter, not another one.
    fn clone(&self) -> (r: Parameter)
        ensures
            r.schema() == self.schema(),
            r.place() == self.place(),
            r.stored() == self.stored(),
            r.value()@ == self.value()@,
            r.value().id() == self.value().id(),
    {
        Parameter {
            owner: self.owner,
            storage: self.storage,
            storage_dtype: self.storage_dtype,
            tensor: self.tensor.copy(),
        }
    }
}

/// The identity of a parameter.
pub open spec fn parameter_id(owner: u64, storage: ParameterStorage) -> ParameterId {
    match storage {
        ParameterStorage::Input(index) => ParameterId((owner, false, index)),
        ParameterStorage::State(slot) => ParameterId((owner, true, slot.index)),
    }
}

/// Parameters of one schema are identified by where their values come from.
pub proof fn parameter_ids_tell_parameters_apart(
    owner: u64,
    a: ParameterStorage,
    b: ParameterStorage,
)
    requires
        parameter_id(owner, a) == parameter_id(owner, b),
        a matches ParameterStorage::State(slot) ==> slot.owner == owner,
        b matches ParameterStorage::State(slot) ==> slot.owner == owner,
    ensures
        a == b,
{
}

/// What one runtime argument of a program stands for.
#[derive(Clone, Copy, PartialEq, Eq, Structural, Debug)]
pub enum Argument {
    Input(usize),
    State(usize),
}

/// How many of the first `count` arguments are visible inputs.
pub open spec fn input_total(arguments: Seq<Argument>, count: nat) -> nat
    decreases count,
{
    if count == 0 {
        0
    } else {
        input_total(arguments, (count - 1) as nat) + if arguments[count - 1] is Input {
            1nat
        } else {
            0
        }
    }
}

/// Inputs and state slots are numbered in the order of their registration.
pub open spec fn numbered(arguments: Seq<Argument>, inputs: nat, states: nat) -> bool {
    &&& input_total(arguments, arguments.len()) == inputs
    &&& arguments.len() == inputs + states
    &&& forall|i: int|
        0 <= i < arguments.len() ==> match #[trigger] arguments[i] {
            Argument::Input(index) => index == input_total(arguments, i as nat),
            Argument::State(index) => index == i - input_total(arguments, i as nat),
        }
}

/// Appending an argument leaves the earlier counts alone.
proof fn lemma_input_total_push(arguments: Seq<Argument>, last: Argument, count: nat)
    requires
        count <= arguments.len(),
    ensures
        input_total(arguments.push(last), count) == input_total(arguments, count),
    decreases count,
{
    if count > 0 {
        lemma_input_total_push(arguments, last, (count - 1) as nat);
        assert(arguments.push(last)[count - 1] == arguments[count - 1]);
    }
}

/// Registering one more input or slot keeps the numbering.
proof fn lemma_numbered_push(arguments: Seq<Argument>, inputs: nat, states: nat, input: bool)
    requires
        numbered(arguments, inputs, states),
        inputs <= usize::MAX,
        states <= usize::MAX,
    ensures
        numbered(
            arguments.push(
                if input {
                    Argument::Input(inputs as usize)
                } else {
                    Argument::State(states as usize)
                },
            ),
            if input {
                inputs + 1
            } else {
                inputs
            },
            if input {
                states
            } else {
                states + 1
            },
        ),
{
    let last = if input {
        Argument::Input(inputs as usize)
    } else {
        Argument::State(states as usize)
    };
    let next = arguments.push(last);
    assert forall|i: int| 0 <= i < next.len() implies match #[trigger] next[i] {
        Argument::Input(index) => index == input_total(next, i as nat),
        Argument::State(index) => index == i - input_total(next, i as nat),
    } by {
        lemma_input_total_push(arguments, last, i as nat);
        if i < arguments.len() {
            assert(next[i] == arguments[i]);
        }
    }
    lemma_input_total_push(arguments, last, arguments.len());
}

/// Why a slot is refused by a schema with a number of slots.
pub open spec fn slot_refusal(owner: u64, count: nat, slot: StateSlot) -> Option<Error> {
    if slot.owner != owner || slot.index >= count {
        Some(invalid("state slot belongs to another schema"))
    } else {
        None
    }
}

/// The refusal of a slot by a schema with a number of slots.
pub(crate) fn validate_slot(owner: u64, count: usize, slot: &StateSlot) -> (r: Result<(), Error>)
    ensures
        match r {
            Ok(_) => slot_refusal(owner, count as nat, *slot) is None,
            Err(e) => slot_refusal(owner, count as nat, *slot) == Some(e),
        },
{
    if slot.owner != owner || slot.index >= count {
        return Err(err("state slot belongs to another schema"));
    }
    Ok(())
}

/// Why the write of a value to a slot is refused.
pub open spec fn write_refusal(
    owner: u64,
    slots: Seq<Value>,
    slot: StateSlot,
    value: Value,
) -> Option<Error> {
    match slot_refusal(owner, slots.len(), slot) {
        Some(e) => Some(e),
        None => if value.graph != owner {
            Some(invalid("cross-graph state value"))
        } else if slots[slot.index as int].dims != value.dims || slots[slot.index as int].dtype
            != value.dtype {
            Some(invalid("state shape or dtype cannot change"))
        } else {
            None
        },
    }
}

/// Updates of slots, in order.
pub type Updates = Seq<(StateSlot, Value)>;

/// Whether one of the first `count` updates names a slot number.
pub open spec fn names(updates: Updates, count: int, index: usize) -> bool {
    exists|k: int| 0 <= k < count && (#[trigger] updates[k]).0.index == index
}

/// The first refusal among the first `count` updates.
pub open spec fn updates_refusal(
    owner: u64,
    slots: Seq<Value>,
    updates: Updates,
    count: nat,
) -> Option<Error>
    decreases count,
{
    if count == 0 {
        None
    } else {
        match updates_refusal(owner, slots, updates, (count - 1) as nat) {
            Some(e) => Some(e),
            None => match write_refusal(owner, slots, updates[count - 1].0, updates[count - 1].1) {
                Some(e) => Some(e),
                None => if names(updates, count - 1, updates[count - 1].0.index) {
                    Some(invalid("duplicate state update slot"))
                } else {
                    None
                },
            },
        }
    }
}

/// The version of a slot after a write.
pub open spec fn written(value: Value, index: usize) -> Value {
    relayed(OpModel::StateWrite { state: index }, value)
}

/// The slots after the first `count` updates.
pub open spec fn updated(slots: Seq<Value>, updates: Updates, count: nat) -> Seq<Value>
    decreases count,
{
    if count == 0 {
        slots
    } else {
        let (slot, value) = updates[count - 1];
        updated(slots, updates, (count - 1) as nat).update(
            slot.index as int,
            written(value, slot.index),
        )
    }
}

/// The values of a list of updates.
pub open spec fn update_values(updates: Seq<(StateSlot, Tensor)>) -> Updates {
    Seq::new(updates.len(), |k: int| (updates[k].0, updates[k].1@))
}

/// A refusal found early is the refusal in the end.
proof fn lemma_updates_refused(
    owner: u64,
    slots: Seq<Value>,
    updates: Updates,
    early: nat,
    count: nat,
)
    requires
        early <= count,
        updates_refusal(owner, slots, updates, early) is Some,
    ensures
        updates_refusal(owner, slots, updates, count) == updates_refusal(
            owner,
            slots,
            updates,
            early,
        ),
    decreases count - early,
{
    if early < count {
        lemma_updates_refused(owner, slots, updates, early + 1, count);
    }
}

/// What holds of every update where none is refused.
pub proof fn accepted_updates_are_valid(
    owner: u64,
    slots: Seq<Value>,
    updates: Updates,
    count: nat,
)
    requires
        updates_refusal(owner, slots, updates, count) is None,
        count <= updates.len(),
    ensures
        forall|k: int|
            0 <= k < count ==> write_refusal(owner, slots, (#[trigger] updates[k]).0, updates[k].1)
                is None,
        forall|j: int, k: int|
            0 <= j < k < count ==> (#[trigger] updates[j]).0.index != (
            #[trigger] updates[k]).0.index,
    decreases count,
{
    if count > 0 {
        accepted_updates_are_valid(owner, slots, updates, (count - 1) as nat);
        assert forall|j: int, k: int| 0 <= j < k < count implies (#[trigger] updates[j]).0.index
            != (#[trigger] updates[k]).0.index by {
            if k == count - 1 && updates[j].0.index == updates[k].0.index {
                assert(names(updates, count - 1, updates[count - 1].0.index));
            }
        }
    }
}

/// An accepted write is what the slot holds afterwards; slots that no update
/// names keep their versions.
pub proof fn updates_take_effect_together(
    owner: u64,
    slots: Seq<Value>,
    updates: Updates,
    count: nat,
)
    requires
        updates_refusal(owner, slots, updates, updates.len()) is None,
        count <= updates.len(),
    ensures
        updated(slots, updates, count).len() == slots.len(),
        forall|k: int|
            0 <= k < count ==> updated(slots, updates, count)[(
            #[trigger] updates[k]).0.index as int] == written(updates[k].1, updates[k].0.index),
        forall|i: int|
            0 <= i < slots.len() && !names(updates, count as int, i as usize) ==> (
            #[trigger] updated(slots, updates, count)[i]) == slots[i],
    decreases count,
{
    accepted_updates_are_valid(owner, slots, updates, updates.len());
    if count > 0 {
        updates_take_effect_together(owner, slots, updates, (count - 1) as nat);
        let before = updated(slots, updates, (count - 1) as nat);
        let after = updated(slots, updates, count);
        let last = updates[count - 1];
        assert(write_refusal(owner, slots, last.0, last.1) is None);
        assert forall|k: int| 0 <= k < count implies after[(
        #[trigger] updates[k]).0.index as int] == written(updates[k].1, updates[k].0.index) by {
            if k < count - 1 {
                assert(updates[k].0.index != last.0.index);
            }
        }
        assert forall|i: int|
            0 <= i < slots.len() && !names(updates, count as int, i as usize) implies (
        #[trigger] after[i]) == slots[i] by {
            if last.0.index == i {
                assert(updates[count - 1].0.index == i as usize);
                assert(names(updates, count as int, i as usize));
            }
            if names(updates, count - 1, i as usize) {
                let k = choose|k: int|
                    0 <= k < count - 1 && (#[trigger] updates[k]).0.index == i as usize;
                assert(names(updates, count as int, i as usize));
            }
            assert(before[i] == slots[i]);
        }
    }
}

/// Records symbolic state versions without touching runtime buffers.
pub struct StateGraph {
    pub(crate) graph: Graph,
    slots: Vec<Tensor>,
    arguments: Vec<Argument>,
    input_count: usize,
}

impl StateGraph {
    /// The tensor graph.
    pub closed spec fn tensors(self) -> Graph {
        self.graph
    }

    /// The current versions of all slots.
    pub closed spec fn versions(self) -> Seq<Tensor> {
        self.slots@
    }

    /// The runtime arguments, in registration order.
    pub closed spec fn abi(self) -> Seq<Argument> {
        self.arguments@
    }

    /// The number of visible inputs.
    pub closed spec fn inputs(self) -> nat {
        self.input_count as nat
    }

    /// The identity of the schema.
    pub open spec fn schema(self) -> u64 {
        self.tensors().key()
    }

    /// The values of the current versions.
    pub open spec fn values(self) -> Seq<Value> {
        values_of(self.versions())
    }

    /// The tensor graph holds every version, and arguments are numbered in
    /// order.
    pub open spec fn wf(self) -> bool {
        &&& self.tensors().wf()
        &&& forall|i: int|
            0 <= i < self.versions().len() ==> self.tensors().owns(#[trigger] self.versions()[i])
        &&& numbered(self.abi(), self.inputs(), self.versions().len())
        &&& self.abi().len() <= parameter_total(self.tensors().model())
    }

    /// Every parameter of the tensor graph is an argument: none was declared on
    /// the dataflow view.
    pub open spec fn aligned(self) -> bool {
        self.abi().len() == parameter_total(self.tensors().model())
    }

    /// Same slots and arguments, over a graph that has only grown.
    pub open spec fn grows(self, old: StateGraph) -> bool {
        &&& self.wf()
        &&& self.tensors().extends(old.tensors())
        &&& self.versions() == old.versions()
        &&& self.abi() == old.abi()
        &&& self.inputs() == old.inputs()
    }

    /// One more argument, over a graph that has only grown.
    pub open spec fn registers(self, old: StateGraph, input: bool) -> bool {
        &&& self.wf()
        &&& self.tensors().extends(old.tensors())
        &&& self.abi() == old.abi().push(
            if input {
                Argument::Input(old.inputs() as usize)
            } else {
                Argument::State(old.versions().len() as usize)
            },
        )
        &&& self.inputs() == old.inputs() + if input {
            1int
        } else {
            0
        }
    }

    /// A state graph with the given identity, and no inputs or slots. The identity
    /// must differ from that of every other live graph.
    pub fn new(id: u64) -> (r: StateGraph)
        ensures
            r.wf(),
            r.schema() == id,
            r.versions().len() == 0,
            r.abi().len() == 0,
            r.inputs() == 0,
    {
        StateGraph {
            graph: Graph::new(id),
            slots: Vec::new(),
            arguments: Vec::new(),
            input_count: 0,
        }
    }

    /// The identity of the schema.
    pub fn owner(&self) -> (r: u64)
        ensures
            r == self.schema(),
    {
        self.graph.id()
    }

    /// The ordinary dataflow view: what is recorded through it leaves slots and
    /// arguments alone.
    pub fn tracer(&mut self) -> (r: &mut Graph)
        requires
            old(self).wf(),
        ensures
            *r == old(self).tensors(),
            final(self).tensors() == *final(r),
            final(self).versions() == old(self).versions(),
            final(self).abi() == old(self).abi(),
            final(self).inputs() == old(self).inputs(),
            final(r).extends(old(self).tensors()) ==> final(self).grows(*old(self)),
    {
        &mut self.graph
    }

    /// Whether every parameter of the tensor graph is an argument.
    pub fn is_aligned(&self) -> (r: bool)
        requires
            self.wf(),
        ensures
            r == self.aligned(),
    {
        self.arguments.len() == self.graph.parameter_count()
    }

    /// The tensor graph.
    pub fn dataflow(&self) -> (r: &Graph)
        ensures
            *r == self.tensors(),
    {
        &self.graph
    }

    /// The number of state slots.
    pub fn slot_count(&self) -> (r: usize)
        ensures
            r == self.versions().len(),
    {
        self.slots.len()
    }

    /// The runtime arguments, in registration order.
    pub(crate) fn declared_arguments(&self) -> (r: &Vec<Argument>)
        ensures
            r@ == self.abi(),
    {
        &self.arguments
    }

    /// Another handle to the current version of a slot.
    pub(crate) fn version(&self, index: usize) -> (r: Tensor)
        requires
            self.wf(),
            index < self.versions().len(),
        ensures
            self.tensors().owns(r),
            r@ == self.versions()[index as int]@,
            r.id() == self.versions()[index as int].id(),
    {
        assert(self.tensors().owns(self.versions()[index as int]));
        self.slots[index].copy()
    }

    /// Slots and arguments have counts that fit in memory.
    pub proof fn lemma_sizes(self)
        ensures
            self.versions().len() <= usize::MAX,
            self.abi().len() <= usize::MAX,
            self.inputs() <= usize::MAX,
    {
        assert(self.slots.len() <= usize::MAX);
        assert(self.arguments.len() <= usize::MAX);
    }

    /// The number of visible inputs.
    pub fn input_count(&self) -> (r: usize)
        ensures
            r == self.inputs(),
    {
        self.input_count
    }

    /// Count a visible input that the graph has just declared.
    fn register_input(&mut self)
        requires
            old(self).tensors().wf(),
            forall|i: int|
                0 <= i < old(self).versions().len() ==> old(self).tensors().owns(
                    #[trigger] old(self).versions()[i],
                ),
            numbered(old(self).abi(), old(self).inputs(), old(self).versions().len()),
            old(self).abi().len() < parameter_total(old(self).tensors().model()),
        ensures
            final(self).tensors() == old(self).tensors(),
            final(self).versions() == old(self).versions(),
            final(self).abi() == old(self).abi().push(Argument::Input(old(self).inputs() as usize)),
            final(self).inputs() == old(self).inputs() + 1,
            final(self).wf(),
    {
        let slots: usize = self.slots.len();
        proof {
            lemma_numbered_push(self.arguments@, self.input_count as nat, slots as nat, true);
        }
        self.arguments.push(Argument::Input(self.input_count));
        let grown: usize = self.arguments.len();
        assert(grown == self.input_count + slots + 1);
        self.input_count = self.input_count + 1;
    }

    /// Register a runtime F32 input.
    pub fn input(&mut self, dims: &[i64]) -> (r: Result<Tensor, Error>)
        requires
            old(self).wf(),
        ensures
            input_registered(
                *old(self),
                *final(self),
                r,
                declared(old(self).schema(), old(self).tensors().model(), dims@, DType::F32),
            ),
            final(self).tensors().records(old(self).tensors(), r),
    {
        self.input_with_dtype(dims, DType::F32)
    }

    /// Register a runtime input of the given element type.
    pub fn input_with_dtype(&mut self, dims: &[i64], dtype: DType) -> (r: Result<Tensor, Error>)
        requires
            old(self).wf(),
        ensures
            input_registered(
                *old(self),
                *final(self),
                r,
                declared(old(self).schema(), old(self).tensors().model(), dims@, dtype),
            ),
            final(self).tensors().records(old(self).tensors(), r),
    {
        match self.graph.input_dtype(dims, dtype) {
            Ok(tensor) => {
                assert(self.graph.model().drop_last() =~= old(self).graph.model());
                self.register_input();
                Ok(tensor)
            },
            Err(e) => Err(e),
        }
    }

    /// Register a runtime input of the given type.
    pub fn input_type(&mut self, ty: &TensorType) -> (r: Result<Tensor, Error>)
        requires
            old(self).wf(),
        ensures
            input_registered(
                *old(self),
                *final(self),
                r,
                declared(old(self).schema(), old(self).tensors().model(), ty@.dims, ty@.dtype),
            ),
            final(self).tensors().records(old(self).tensors(), r),
    {
        self.input_with_dtype(ty.dims.as_slice(), ty.dtype)
    }

    /// Append an operation of another representation to the tensor graph. It
    /// must have the result type that it had there.
    pub fn append_dataflow(&mut self, op: Op, operands: &[Tensor], ty: &TensorType) -> (r: Result<
        Tensor,
        Error,
    >)
        requires
            old(self).wf(),
            old(self).tensors().admits_all(operands@),
            !is_parameter(op@),
            sound(op@, values_of(operands@), ty@.dims),
        ensures
            final(self).grows(*old(self)),
            final(self).tensors().yields(
                r,
                imported(old(self).schema(), op@, values_of(operands@), ty@),
            ),
            !all_local(old(self).schema(), values_of(operands@)) ==> *final(self) == *old(self),
    {
        let mut ids: Vec<usize> = Vec::new();
        let mut i: usize = 0;
        let ghost owner = self.schema();
        while i < operands.len()
            invariant
                *self == *old(self),
                owner == self.schema(),
                self.wf(),
                self.graph.admits_all(operands@),
                i <= operands@.len(),
                ids@ == ids_of(operands@).take(i as int),
                forall|k: int|
                    0 <= k < i ==> (#[trigger] values_of(operands@)[k]).graph == owner && ids@[k]
                        < self.graph.model().len() && self.graph.model()[ids@[k] as int]
                        == values_of(operands@)[k],
            decreases operands@.len() - i,
        {
            assert(self.graph.admits(operands@[i as int]));
            if operands[i].graph_id() != self.graph.id() {
                assert(values_of(operands@)[i as int].graph != owner);
                return Err(err("imported operation belongs to another graph"));
            }
            ids.push(operands[i].node_id());
            assert(ids_of(operands@).take(i + 1) =~= ids_of(operands@).take(i as int).push(
                operands@[i as int].id(),
            ));
            i += 1;
        }
        proof {
            assert(ids_of(operands@).take(i as int) =~= ids_of(operands@));
            assert forall|k: int| 0 <= k < ids@.len() implies #[trigger] ids@[k]
                < self.graph.model().len() by {
                assert(values_of(operands@)[k].graph == owner);
            }
            assert(picked(self.graph.model(), ids@) =~= values_of(operands@));
        }
        let value: Tensor = self.graph.node(op, ids, ty.dims.as_slice())?;
        if value.dtype() != ty.dtype {
            return Err(err("imported operation changed result dtype"));
        }
        Ok(value)
    }

    /// Register a BF16 input with an explicit conversion to F32.
    pub fn input_bf16_as_f32(&mut self, dims: &[i64]) -> (r: Result<Tensor, Error>)
        requires
            old(self).wf(),
        ensures
            input_registered(
                *old(self),
                *final(self),
                r,
                crate::graph::widened(old(self).schema(), old(self).tensors().model(), dims@),
            ),
            match r {
                Ok(t) => final(self).tensors().model() == old(self).tensors().model().push(
                    declared(
                        old(self).schema(),
                        old(self).tensors().model(),
                        dims@,
                        DType::BF16,
                    )->Is_0,
                ).push(t@),
                Err(_) => final(self).tensors() == old(self).tensors(),
            },
    {
        match self.graph.input_bf16_as_f32(dims) {
            Ok(tensor) => {
                self.register_input();
                Ok(tensor)
            },
            Err(e) => Err(e),
        }
    }

    /// Register a rank-zero I32 input.
    pub fn input_i32_scalar(&mut self) -> (r: Result<Tensor, Error>)
        requires
            old(self).wf(),
        ensures
            input_registered(
                *old(self),
                *final(self),
                r,
                declared(
                    old(self).schema(),
                    old(self).tensors().model(),
                    Seq::empty(),
                    DType::I32,
                ),
            ),
            final(self).tensors().records(old(self).tensors(), r),
    {
        let dims: Vec<i64> = Vec::new();
        self.input_i32(dims.as_slice())
    }

    /// Register an I32 input.
    pub fn input_i32(&mut self, dims: &[i64]) -> (r: Result<Tensor, Error>)
        requires
            old(self).wf(),
        ensures
            input_registered(
                *old(self),
                *final(self),
                r,
                declared(old(self).schema(), old(self).tensors().model(), dims@, DType::I32),
            ),
            final(self).tensors().records(old(self).tensors(), r),
    {
        self.input_with_dtype(dims, DType::I32)
    }

    /// Register a runtime F32 input with an identity that bindings can name.
    pub fn parameter(&mut self, dims: &[i64]) -> (r: Result<Parameter, Error>)
        requires
            old(self).wf(),
        ensures
            parameter_registered(
                *old(self),
                *final(self),
                r,
                DType::F32,
                declared(old(self).schema(), old(self).tensors().model(), dims@, DType::F32),
            ),
    {
        let index: usize = self.input_count;
        let tensor: Tensor = self.input(dims)?;
        Ok(
            Parameter {
                owner: self.graph.id(),
                storage: ParameterStorage::Input(index),
                storage_dtype: DType::F32,
                tensor,
            },
        )
    }

    /// Register frozen BF16 storage with an F32 symbolic value.
    pub fn parameter_bf16_as_f32(&mut self, dims: &[i64]) -> (r: Result<Parameter, Error>)
        requires
            old(self).wf(),
        ensures
            parameter_registered(
                *old(self),
                *final(self),
                r,
                DType::BF16,
                crate::graph::widened(old(self).schema(), old(self).tensors().model(), dims@),
            ),
    {
        let index: usize = self.input_count;
        let tensor: Tensor = self.input_bf16_as_f32(dims)?;
        Ok(
            Parameter {
                owner: self.graph.id(),
                storage: ParameterStorage::Input(index),
                storage_dtype: DType::BF16,
                tensor,
            },
        )
    }

    /// Register an F32 parameter that lives in a state slot. The handle keeps
    /// the value at the start of an execution.
    pub fn trainable_parameter(&mut self, dims: &[i64]) -> (r: Result<Parameter, Error>)
        requires
            old(self).wf(),
        ensures
            match r {
                Ok(parameter) => {
                    let slot = StateSlot {
                        owner: old(self).schema(),
                        index: old(self).versions().len() as usize,
                    };
                    &&& state_registered(
                        *old(self),
                        *final(self),
                        Ok(slot),
                        DType::F32,
                        dims@,
                        default_name(old(self).versions().len()),
                    )
                    &&& parameter.schema() == old(self).schema()
                    &&& parameter.place() == ParameterStorage::State(slot)
                    &&& parameter.stored() == DType::F32
                    &&& parameter.value()@ == final(self).versions().last()@
                    &&& parameter.value().id() == final(self).versions().last().id()
                    &&& final(self).tensors().owns(parameter.value())
                },
                Err(e) => state_registered(
                    *old(self),
                    *final(self),
                    Err(e),
                    DType::F32,
                    dims@,
                    default_name(old(self).versions().len()),
                ),
            },
    {
        let slot: StateSlot = self.state(dims)?;
        let tensor: Tensor = self.slots[slot.index].copy();
        Ok(
            Parameter {
                owner: self.graph.id(),
                storage: ParameterStorage::State(slot),
                storage_dtype: DType::F32,
                tensor,
            },
        )
    }

    /// Register resident F32 state.
    pub fn state(&mut self, dims: &[i64]) -> (r: Result<StateSlot, Error>)
        requires
            old(self).wf(),
        ensures
            state_registered(
                *old(self),
                *final(self),
                r,
                DType::F32,
                dims@,
                default_name(old(self).versions().len()),
            ),
    {
        let path: String = joined_text("state.", decimal_text(self.slots.len()).as_str());
        self.state_named(path.as_str(), dims, DType::F32)
    }

    /// Register resident I32 state.
    pub fn state_i32(&mut self, dims: &[i64]) -> (r: Result<StateSlot, Error>)
        requires
            old(self).wf(),
        ensures
            state_registered(
                *old(self),
                *final(self),
                r,
                DType::I32,
                dims@,
                default_name(old(self).versions().len()),
            ),
    {
        let path: String = joined_text("state.", decimal_text(self.slots.len()).as_str());
        self.state_named(path.as_str(), dims, DType::I32)
    }

    /// Register resident state under a name.
    pub fn state_named(&mut self, path: &str, dims: &[i64], dtype: DType) -> (r: Result<
        StateSlot,
        Error,
    >)
        requires
            old(self).wf(),
        ensures
            state_registered(*old(self), *final(self), r, dtype, dims@, path@),
    {
        let index: usize = self.slots.len();
        let value: Tensor = match self.graph.state_input(dims, dtype, index, path.to_owned()) {
            Ok(value) => value,
            Err(e) => {
                return Err(e);
            },
        };
        let ghost declared = self.graph;
        assert(declared.model().drop_last() =~= old(self).graph.model());
        let version: Tensor = self.graph.state_read(&value, index);
        let ghost before = self.slots@;
        proof {
            lemma_numbered_push(
                self.arguments@,
                self.input_count as nat,
                self.slots@.len(),
                false,
            );
        }
        self.slots.push(version);
        self.arguments.push(Argument::State(index));
        proof {
            assert forall|i: int| 0 <= i < self.slots@.len() implies self.graph.owns(
                #[trigger] self.slots@[i],
            ) by {
                if i < before.len() {
                    assert(old(self).tensors().owns(old(self).versions()[i]));
                }
            }
        }
        Ok(StateSlot { owner: self.graph.id(), index })
    }

    /// Register several slots of the same type, one after the other.
    pub(crate) fn add_slots(&mut self, dims: &[i64], dtype: DType, count: usize) -> (r: Result<
        Vec<StateSlot>,
        Error,
    >)
        requires
            old(self).wf(),
        ensures
            match r {
                Ok(slots) => {
                    &&& count > 0 ==> volume(dims@) is Some
                    &&& slots@.len() == count
                    &&& slots_added(*old(self), *final(self), slots@, dtype, dims@)
                },
                Err(e) => volume(dims@) is None && e == bad_shape() && *final(self) == *old(self),
            },
    {
        let mut slots: Vec<StateSlot> = Vec::new();
        assert(slots_added(*old(self), *self, slots@, dtype, dims@)) by {
            reveal(slots_added);
            assert(self.abi() =~= old(self).abi() + slot_arguments(slots@));
        }
        let mut i: usize = 0;
        while i < count
            invariant
                old(self).wf(),
                self.wf(),
                i <= count,
                slots@.len() == i,
                i > 0 ==> volume(dims@) is Some,
                i == 0 ==> *self == *old(self),
                slots_added(*old(self), *self, slots@, dtype, dims@),
            decreases count - i,
        {
            let ghost before = *self;
            let path: String = joined_text("state.", decimal_text(self.slots.len()).as_str());
            let slot: StateSlot = match self.state_named(path.as_str(), dims, dtype) {
                Ok(slot) => slot,
                Err(e) => {
                    return Err(e);
                },
            };
            proof {
                before.lemma_sizes();
                self.lemma_sizes();
                lemma_slots_added(
                    *old(self),
                    before,
                    *self,
                    slots@,
                    slot,
                    dtype,
                    dims@,
                    path@,
                );
            }
            slots.push(slot);
            i += 1;
        }
        Ok(slots)
    }

    /// The current version of a slot.
    pub fn read(&self, slot: &StateSlot) -> (r: Result<Tensor, Error>)
        requires
            self.wf(),
        ensures
            match r {
                Ok(t) => {
                    &&& slot_refusal(self.schema(), self.versions().len(), *slot) is None
                    &&& self.tensors().owns(t)
                    &&& t@ == self.versions()[slot.index as int]@
                    &&& t.id() == self.versions()[slot.index as int].id()
                },
                Err(e) => slot_refusal(self.schema(), self.versions().len(), *slot) == Some(e),
            },
    {
        validate_slot(self.graph.id(), self.slots.len(), slot)?;
        assert(self.tensors().owns(self.versions()[slot.index as int]));
        Ok(self.slots[slot.index].copy())
    }

    /// The refusal of the write of a value to a slot.
    fn validate_write(&self, slot: &StateSlot, value: &Tensor) -> (r: Result<(), Error>)
        requires
            self.wf(),
            self.tensors().admits(*value),
        ensures
            match r {
                Ok(_) => write_refusal(self.schema(), self.values(), *slot, value@) is None,
                Err(e) => write_refusal(self.schema(), self.values(), *slot, value@) == Some(e),
            },
    {
        validate_slot(self.graph.id(), self.slots.len(), slot)?;
        assert(self.tensors().owns(self.versions()[slot.index as int]));
        assert(self.values()[slot.index as int] == self.versions()[slot.index as int]@);
        if value.graph_id() != self.graph.id() {
            return Err(err("cross-graph state value"));
        }
        let current: &Tensor = &self.slots[slot.index];
        if !same_dims(current.shape(), value.shape()) || current.dtype() != value.dtype() {
            return Err(err("state shape or dtype cannot change"));
        }
        Ok(())
    }

    /// The refusal of a list of updates.
    pub fn validate_updates(&self, updates: &Vec<(StateSlot, Tensor)>) -> (r: Result<
        (),
        Error,
    >)
        requires
            self.wf(),
            self.admits_updates(updates@),
        ensures
            match r {
                Ok(_) => updates_refusal(
                    self.schema(),
                    self.values(),
                    update_values(updates@),
                    updates@.len(),
                ) is None,
                Err(e) => updates_refusal(
                    self.schema(),
                    self.values(),
                    update_values(updates@),
                    updates@.len(),
                ) == Some(e),
            },
    {
        let ghost owner = self.schema();
        let ghost slots = self.values();
        let ghost values = update_values(updates@);
        let mut i: usize = 0;
        while i < updates.len()
            invariant
                self.wf(),
                self.admits_updates(updates@),
                owner == self.schema(),
                slots == self.values(),
                values == update_values(updates@),
                i <= updates@.len(),
                updates_refusal(owner, slots, values, i as nat) is None,
            decreases updates@.len() - i,
        {
            assert(self.tensors().admits(updates@[i as int].1));
            assert(values[i as int] == (updates@[i as int].0, updates@[i as int].1@));
            match self.validate_write(&updates[i].0, &updates[i].1) {
                Ok(_) => {},
                Err(e) => {
                    proof {
                        lemma_updates_refused(
                            owner,
                            slots,
                            values,
                            (i + 1) as nat,
                            values.len(),
                        );
                    }
                    return Err(e);
                },
            }
            let index: usize = updates[i].0.index;
            let mut k: usize = 0;
            while k < i
                invariant
                    i < updates@.len(),
                    k <= i,
                    owner == self.schema(),
                    slots == self.values(),
                    values == update_values(updates@),
                    index == updates@[i as int].0.index,
                    updates_refusal(owner, slots, values, i as nat) is None,
                    write_refusal(owner, slots, values[i as int].0, values[i as int].1) is None,
                    forall|j: int| 0 <= j < k ==> (#[trigger] values[j]).0.index != index,
                decreases i - k,
            {
                assert(values[k as int].0 == updates@[k as int].0);
                if updates[k].0.index == index {
                    proof {
                        assert(values[i as int].0.index == index);
                        assert(names(values, i as int, index));
                        lemma_updates_refused(
                            owner,
                            slots,
                            values,
                            (i + 1) as nat,
                            values.len(),
                        );
                    }
                    return Err(err("duplicate state update slot"));
                }
                k += 1;
            }
            i += 1;
        }
        Ok(())
    }

    /// Every value of the updates is admissible here.
    pub open spec fn admits_updates(self, updates: Seq<(StateSlot, Tensor)>) -> bool {
        forall|k: int| 0 <= k < updates.len() ==> self.tensors().admits((#[trigger] updates[k]).1)
    }

    /// Record updates of slots, all or none.
    pub fn record_updates(&mut self, updates: &Vec<(StateSlot, Tensor)>) -> (r: Result<
        (),
        Error,
    >)
        requires
            old(self).wf(),
            old(self).admits_updates(updates@),
        ensures
            recorded_updates(*old(self), *final(self), r, update_values(updates@)),
    {
        self.validate_updates(updates)?;
        let ghost owner = self.schema();
        let ghost start = self.values();
        let ghost values = update_values(updates@);
        let ghost origin = *self;
        proof {
            accepted_updates_are_valid(owner, start, values, values.len());
        }
        let mut i: usize = 0;
        while i < updates.len()
            invariant
                origin == *old(self),
                origin.wf(),
                origin.admits_updates(updates@),
                owner == origin.schema(),
                start == origin.values(),
                values == update_values(updates@),
                self.wf(),
                self.tensors().extends(origin.tensors()),
                self.abi() == origin.abi(),
                self.inputs() == origin.inputs(),
                self.versions().len() == origin.versions().len(),
                self.schema() == owner,
                i <= updates@.len(),
                updates_refusal(owner, start, values, values.len()) is None,
                forall|k: int|
                    0 <= k < values.len() ==> write_refusal(
                        owner,
                        start,
                        (#[trigger] values[k]).0,
                        values[k].1,
                    ) is None,
                self.values() == updated(start, values, i as nat),
                replaced(
                    origin.versions(),
                    self.versions(),
                    values,
                    i as int,
                    origin.tensors().model().len(),
                ),
            decreases updates@.len() - i,
        {
            let ghost before = *self;
            let index: usize = updates[i].0.index;
            proof {
                assert(values[i as int] == (updates@[i as int].0, updates@[i as int].1@));
                assert(write_refusal(owner, start, values[i as int].0, values[i as int].1) is None);
                assert(origin.tensors().admits(updates@[i as int].1));
            }
            let version: Tensor = self.graph.state_write(&updates[i].1, index);
            let slots: usize = self.slots.len();
            assert(slots == before.versions().len());
            self.slots.set(index, version);
            proof {
                assert forall|k: int| 0 <= k < self.slots@.len() implies self.graph.owns(
                    #[trigger] self.slots@[k],
                ) by {
                    if k != index {
                        assert(before.tensors().owns(before.versions()[k]));
                    }
                }
                assert(self.values() =~= before.values().update(
                    index as int,
                    written(updates@[i as int].1@, index),
                ));
                lemma_update_step(
                    origin.versions(),
                    before.versions(),
                    self.versions(),
                    values,
                    i as int,
                    origin.tensors().model().len(),
                );
            }
            i += 1;
        }
        Ok(())
    }

    /// Record the next version of a slot.
    pub fn write(&mut self, slot: &StateSlot, value: &Tensor) -> (r: Result<(), Error>)
        requires
            old(self).wf(),
            old(self).tensors().admits(*value),
        ensures
            recorded_updates(*old(self), *final(self), r, seq![(*slot, value@)]),
    {
        let updates: Vec<(StateSlot, Tensor)> = vec![(*slot, value.copy())];
        assert(update_values(updates@) =~= seq![(*slot, value@)]);
        self.record_updates(&updates)
    }

    /// Record the next version of a slot from what a transformation of its
    /// current version gave, and return that value.
    pub fn update(&mut self, slot: &StateSlot, proposed: Result<Tensor, Error>) -> (r: Result<
        Tensor,
        Error,
    >)
        requires
            old(self).wf(),
            proposed matches Ok(value) ==> old(self).tensors().admits(value),
        ensures
            match slot_refusal(old(self).schema(), old(self).versions().len(), *slot) {
                Some(e) => r == Err::<Tensor, Error>(e) && *final(self) == *old(self),
                None => match proposed {
                    Err(e) => r == Err::<Tensor, Error>(e) && *final(self) == *old(self),
                    Ok(value) => match r {
                        Ok(t) => t == value && recorded_updates(
                            *old(self),
                            *final(self),
                            Ok(()),
                            seq![(*slot, value@)],
                        ),
                        Err(e) => recorded_updates(
                            *old(self),
                            *final(self),
                            Err(e),
                            seq![(*slot, value@)],
                        ),
                    },
                },
            },
    {
        validate_slot(self.graph.id(), self.slots.len(), slot)?;
        match proposed {
            Err(e) => Err(e),
            Ok(value) => match self.write(slot, &value) {
                Ok(_) => Ok(value),
                Err(e) => Err(e),
            },
        }
    }

    /// Record updates of several slots at once: errors leave every version as
    /// it was, and slots without an update keep theirs.
    pub fn write_many(&mut self, updates: &[(StateSlot, &Tensor)]) -> (r: Result<(), Error>)
        requires
            old(self).wf(),
            forall|k: int|
                0 <= k < updates@.len() ==> old(self).tensors().admits(*(
                #[trigger] updates@[k]).1),
        ensures
            recorded_updates(
                *old(self),
                *final(self),
                r,
                Seq::new(updates@.len(), |k: int| (updates@[k].0, updates@[k].1@)),
            ),
    {
        let ghost values = Seq::new(updates@.len(), |k: int| (updates@[k].0, updates@[k].1@));
        let mut list: Vec<(StateSlot, Tensor)> = Vec::new();
        let mut i: usize = 0;
        while i < updates.len()
            invariant
                forall|k: int|
                    0 <= k < updates@.len() ==> self.tensors().admits(*(
                    #[trigger] updates@[k]).1),
                i <= updates@.len(),
                list@.len() == i,
                self.admits_updates(list@),
                forall|k: int|
                    0 <= k < i ==> (#[trigger] list@[k]).0 == updates@[k].0 && list@[k].1@
                        == updates@[k].1@,
            decreases updates@.len() - i,
        {
            assert(self.tensors().admits(*updates@[i as int].1));
            list.push((updates[i].0, updates[i].1.copy()));
            i += 1;
        }
        assert(update_values(list@) =~= values);
        self.record_updates(&list)
    }

    /// The refusal of a condition.
    fn validate_condition(&self, condition: &Tensor) -> (r: Result<(), Error>)
        requires
            condition.wf(),
        ensures
            match r {
                Ok(_) => condition_refusal(self.schema(), condition@) is None,
                Err(e) => condition_refusal(self.schema(), condition@) == Some(e),
            },
    {
        if condition.dtype() != DType::F32 {
            return Err(err("state condition must be F32"));
        }
        if condition.graph_id() != self.graph.id() {
            return Err(err("cross-graph state update condition"));
        }
        if condition.shape().len() != 0 {
            return Err(err("state update condition must be scalar"));
        }
        Ok(())
    }

    /// The proposals that a condition selects over the current versions.
    fn select_updates(&mut self, condition: &Tensor, updates: &Vec<(StateSlot, Tensor)>) -> (r:
        Result<Vec<(StateSlot, Tensor)>, Error>)
        requires
            old(self).wf(),
            old(self).admits_updates(updates@),
            old(self).tensors().admits(*condition),
            condition_refusal(old(self).schema(), condition@) is None,
            forall|k: int|
                0 <= k < updates@.len() ==> write_refusal(
                    old(self).schema(),
                    old(self).values(),
                    (#[trigger] updates@[k]).0,
                    updates@[k].1@,
                ) is None,
        ensures
            final(self).grows(*old(self)),
            r is Ok,
            final(self).admits_updates(r->Ok_0@),
            update_values(r->Ok_0@) == chosen_updates(
                condition@,
                old(self).values(),
                update_values(updates@),
            ),
    {
        let ghost slots = self.values();
        let mut list: Vec<(StateSlot, Tensor)> = Vec::new();
        let mut i: usize = 0;
        while i < updates.len()
            invariant
                old(self).wf(),
                slots == old(self).values(),
                self.grows(*old(self)),
                old(self).admits_updates(updates@),
                old(self).tensors().admits(*condition),
                condition_refusal(old(self).schema(), condition@) is None,
                forall|k: int|
                    0 <= k < updates@.len() ==> write_refusal(
                        old(self).schema(),
                        slots,
                        (#[trigger] updates@[k]).0,
                        updates@[k].1@,
                    ) is None,
                i <= updates@.len(),
                list@.len() == i,
                self.admits_updates(list@),
                forall|k: int|
                    0 <= k < i ==> (#[trigger] list@[k]).0 == updates@[k].0 && list@[k].1@
                        == chosen_version(
                        condition@,
                        updates@[k].1@,
                        slots[updates@[k].0.index as int],
                    ),
            decreases updates@.len() - i,
        {
            let ghost before = *self;
            let index: usize = updates[i].0.index;
            let ghost proposed = updates@[i as int].1@;
            proof {
                assert(write_refusal(
                    old(self).schema(),
                    slots,
                    updates@[i as int].0,
                    updates@[i as int].1@,
                ) is None);
                assert(old(self).tensors().admits(updates@[i as int].1));
                assert(old(self).tensors().owns(old(self).versions()[index as int]));
                assert(slots[index as int] == old(self).versions()[index as int]@);
                updates@[i as int].1.lemma_counted();
                lemma_choice_lands(condition@, proposed, slots[index as int]);
            }
            let current: Tensor = self.slots[index].copy();
            let mask: Tensor = condition.broadcast_to(&mut self.graph, updates[i].1.shape())?;
            let chosen: Tensor = mask.select(&mut self.graph, &updates[i].1, &current)?;
            list.push((updates[i].0, chosen));
            proof {
                assert forall|k: int| 0 <= k < list@.len() implies self.tensors().admits(
                    (#[trigger] list@[k]).1,
                ) by {
                    if k < i {
                        assert(before.tensors().admits(list@[k].1));
                    }
                }
            }
            i += 1;
        }
        assert(update_values(list@) =~= chosen_updates(condition@, slots, update_values(updates@)));
        Ok(list)
    }

    /// Record updates that a scalar F32 mask selects: zero keeps every version,
    /// anything else takes every proposal. Errors leave every version as it
    /// was.
    pub fn write_many_if(&mut self, condition: &Tensor, updates: &Vec<(StateSlot, Tensor)>) -> (r:
        Result<(), Error>)
        requires
            old(self).wf(),
            old(self).tensors().admits(*condition),
            old(self).admits_updates(updates@),
        ensures
            conditionally_recorded(*old(self), *final(self), r, condition@, update_values(updates@)),
    {
        self.validate_condition(condition)?;
        self.validate_updates(updates)?;
        let ghost owner = self.schema();
        let ghost slots = self.values();
        let ghost values = update_values(updates@);
        proof {
            accepted_updates_are_valid(owner, slots, values, values.len());
            assert forall|k: int| 0 <= k < updates@.len() implies write_refusal(
                owner,
                slots,
                (#[trigger] updates@[k]).0,
                updates@[k].1@,
            ) is None by {
                assert(values[k] == (updates@[k].0, updates@[k].1@));
            }
            assert forall|k: int| 0 <= k < values.len() implies volume(
                (#[trigger] values[k]).1.dims,
            ) is Some by {
                assert(self.tensors().admits(updates@[k].1));
                updates@[k].1.lemma_counted();
            }
            condition_takes_all_or_none(owner, slots, condition@, values, values.len());
        }
        let selected: Vec<(StateSlot, Tensor)> = self.select_updates(condition, updates)?;
        assert(self.values() =~= slots);
        assert(forall|k: int|
            names(update_values(selected@), values.len() as int, k as usize) <==> #[trigger] names(
                values,
                values.len() as int,
                k as usize,
            )) by {
            lemma_chosen_names(condition@, slots, values);
        }
        self.record_updates(&selected)
    }

    /// Record what a condition selects of a transformation's outcome, and
    /// return the selected version.
    pub fn update_if(
        &mut self,
        condition: &Tensor,
        slot: &StateSlot,
        proposed: Result<Tensor, Error>,
    ) -> (r: Result<Tensor, Error>)
        requires
            old(self).wf(),
            old(self).tensors().admits(*condition),
            proposed matches Ok(value) ==> old(self).tensors().admits(value),
        ensures
            match condition_refusal(old(self).schema(), condition@) {
                Some(e) => r == Err::<Tensor, Error>(e) && *final(self) == *old(self),
                None => match slot_refusal(
                    old(self).schema(),
                    old(self).versions().len(),
                    *slot,
                ) {
                    Some(e) => r == Err::<Tensor, Error>(e) && *final(self) == *old(self),
                    None => match proposed {
                        Err(e) => r == Err::<Tensor, Error>(e) && *final(self) == *old(self),
                        Ok(value) => match r {
                            Ok(t) => {
                                &&& conditionally_recorded(
                                    *old(self),
                                    *final(self),
                                    Ok(()),
                                    condition@,
                                    seq![(*slot, value@)],
                                )
                                &&& t@ == final(self).versions()[slot.index as int]@
                            },
                            Err(e) => conditionally_recorded(
                                *old(self),
                                *final(self),
                                Err(e),
                                condition@,
                                seq![(*slot, value@)],
                            ),
                        },
                    },
                },
            },
    {
        self.validate_condition(condition)?;
        validate_slot(self.graph.id(), self.slots.len(), slot)?;
        match proposed {
            Err(e) => Err(e),
            Ok(value) => {
                let updates: Vec<(StateSlot, Tensor)> = vec![(*slot, value)];
                assert(update_values(updates@) =~= seq![(*slot, value@)]);
                match self.write_many_if(condition, &updates) {
                    Ok(_) => {
                        assert(self.versions().len() == old(self).versions().len());
                        self.read(slot)
                    },
                    Err(e) => Err(e),
                }
            },
        }
    }

    /// An F32 constant with the given extents.
    pub fn constant(&mut self, dims: &[i64], values: &[Scalar]) -> (r: Result<Tensor, Error>)
        requires
            old(self).wf(),
        ensures
            final(self).grows(*old(self)),
            final(self).tensors().yields(r, constant(old(self).schema(), dims@, values@)),
            final(self).tensors().records(old(self).tensors(), r),
    {
        self.graph.constant(dims, values)
    }

    /// A rank-zero I32 constant.
    pub fn scalar_i32(&mut self, value: i32) -> (r: Result<Tensor, Error>)
        requires
            old(self).wf(),
        ensures
            final(self).grows(*old(self)),
            final(self).tensors().yields(r, scalar_i32(old(self).schema(), value)),
            final(self).tensors().records(old(self).tensors(), r),
    {
        self.graph.scalar_i32(value)
    }

    /// An I32 constant with the given extents.
    pub fn constant_i32(&mut self, dims: &[i64], values: &[i32]) -> (r: Result<Tensor, Error>)
        requires
            old(self).wf(),
        ensures
            final(self).grows(*old(self)),
            final(self).tensors().yields(r, constant_i32(old(self).schema(), dims@, values@)),
            final(self).tensors().records(old(self).tensors(), r),
    {
        self.graph.constant_i32(dims, values)
    }

    /// I32 coordinates along one axis.
    pub fn iota_i32(&mut self, dims: &[i64], axis: usize) -> (r: Result<Tensor, Error>)
        requires
            old(self).wf(),
        ensures
            final(self).grows(*old(self)),
            final(self).tensors().yields(r, iota(old(self).schema(), dims@, axis)),
            final(self).tensors().records(old(self).tensors(), r),
    {
        self.graph.iota_i32(dims, axis)
    }

    /// A static additive causal mask.
    pub fn causal_attention_mask(&mut self, queries: i64, keys: i64, query_offset: i64) -> (r:
        Result<Tensor, Error>)
        requires
            old(self).wf(),
        ensures
            final(self).grows(*old(self)),
            final(self).tensors().yields(
                r,
                crate::attention::causal_mask(old(self).schema(), queries, keys, query_offset),
            ),
    {
        self.graph.causal_attention_mask(queries, keys, query_offset)
    }
}

/// The default name of a slot.
pub open spec fn default_name(index: nat) -> Seq<char> {
    "state."@ + decimal(index)
}

/// An operation of another representation, on operands of this graph and with
/// the result type that it had there.
pub open spec fn imported(owner: u64, op: OpModel, operands: Seq<Value>, ty: TypeModel) -> Expr {
    if !all_local(owner, operands) {
        Expr::Fails(invalid("imported operation belongs to another graph"))
    } else {
        match applied(owner, op, operands, ty.dims) {
            Expr::Fails(e) => Expr::Fails(e),
            Expr::Is(value) => if value.dtype != ty.dtype {
                Expr::Fails(invalid("imported operation changed result dtype"))
            } else {
                Expr::Is(value)
            },
        }
    }
}

/// The outcome of registering an input: its value and one more argument, or the
/// failure with nothing changed but recorded operations.
pub open spec fn input_registered(
    before: StateGraph,
    after: StateGraph,
    r: Result<Tensor, Error>,
    e: Expr,
) -> bool {
    &&& after.tensors().yields(r, e)
    &&& after.versions() == before.versions()
    &&& match r {
        Ok(_) => after.registers(before, true),
        Err(_) => after.grows(before),
    }
}

/// The outcome of registering a parameter that is an input.
pub open spec fn parameter_registered(
    before: StateGraph,
    after: StateGraph,
    r: Result<Parameter, Error>,
    dtype: DType,
    e: Expr,
) -> bool {
    match r {
        Ok(parameter) => {
            &&& input_registered(before, after, Ok(parameter.value()), e)
            &&& parameter.schema() == before.schema()
            &&& parameter.place() == ParameterStorage::Input(before.inputs() as usize)
            &&& parameter.stored() == dtype
        },
        Err(error) => input_registered(before, after, Err(error), e),
    }
}

/// The outcome of registering a state slot: a version that reads the slot's
/// input, or the failure with nothing changed.
pub open spec fn state_registered(
    before: StateGraph,
    after: StateGraph,
    r: Result<StateSlot, Error>,
    dtype: DType,
    dims: Seq<i64>,
    path: Seq<char>,
) -> bool {
    let index = before.versions().len() as usize;
    let input = state_declared(
        before.schema(),
        before.tensors().model(),
        dims,
        dtype,
        index,
        path,
    );
    match r {
        Ok(slot) => {
            &&& input is Is
            &&& slot == (StateSlot { owner: before.schema(), index })
            &&& after.registers(before, false)
            &&& after.versions().len() == before.versions().len() + 1
            &&& after.versions().last()@ == relayed(
                OpModel::StateRead { state: index },
                input->Is_0,
            )
            &&& forall|k: int|
                0 <= k < before.versions().len() ==> (#[trigger] after.versions()[k])
                    == before.versions()[k]
        },
        Err(e) => input == Expr::Fails(e) && after == before,
    }
}

/// Slots that the first `count` updates name hold values recorded since the
/// graph had `start` values; the others hold what they held.
pub open spec fn replaced(
    before: Seq<Tensor>,
    after: Seq<Tensor>,
    updates: Updates,
    count: int,
    start: nat,
) -> bool {
    &&& after.len() == before.len()
    &&& forall|k: int|
        0 <= k < after.len() ==> if names(updates, count, k as usize) {
            (#[trigger] after[k]).id() >= start
        } else {
            after[k] == before[k]
        }
}

/// One more update replaces one more slot.
proof fn lemma_update_step(
    origin: Seq<Tensor>,
    before: Seq<Tensor>,
    after: Seq<Tensor>,
    updates: Updates,
    i: int,
    start: nat,
)
    requires
        0 <= i < updates.len(),
        updates[i].0.index < before.len(),
        before.len() <= usize::MAX,
        replaced(origin, before, updates, i, start),
        after == before.update(updates[i].0.index as int, after[updates[i].0.index as int]),
        after[updates[i].0.index as int].id() >= start,
    ensures
        replaced(origin, after, updates, i + 1, start),
{
    let index = updates[i].0.index;
    assert forall|k: int| 0 <= k < after.len() implies if names(updates, i + 1, k as usize) {
        (#[trigger] after[k]).id() >= start
    } else {
        after[k] == origin[k]
    } by {
        if k != index {
            assert(after[k] == before[k]);
            assert(names(updates, i + 1, k as usize) ==> names(updates, i, k as usize)) by {
                if names(updates, i + 1, k as usize) {
                    let j = choose|j: int|
                        0 <= j < i + 1 && (#[trigger] updates[j]).0.index == k as usize;
                    assert(updates[j].0.index == k as usize && j < i);
                }
            }
            assert(names(updates, i, k as usize) ==> names(updates, i + 1, k as usize)) by {
                if names(updates, i, k as usize) {
                    let j = choose|j: int|
                        0 <= j < i && (#[trigger] updates[j]).0.index == k as usize;
                    assert(updates[j].0.index == k as usize && j < i + 1);
                }
            }
        } else {
            assert(updates[i].0.index == k as usize);
            assert(names(updates, i + 1, k as usize));
        }
    }
}

/// The arguments of slots.
pub open spec fn slot_arguments(slots: Seq<StateSlot>) -> Seq<Argument> {
    Seq::new(slots.len(), |k: int| Argument::State(slots[k].index))
}

/// Whether slots of one type were registered, one after the other.
#[verifier::opaque]
pub open spec fn slots_added(
    before: StateGraph,
    after: StateGraph,
    slots: Seq<StateSlot>,
    dtype: DType,
    dims: Seq<i64>,
) -> bool {
    let count = before.versions().len();
    &&& after.wf()
    &&& after.tensors().extends(before.tensors())
    &&& after.inputs() == before.inputs()
    &&& after.abi() == before.abi() + slot_arguments(slots)
    &&& after.versions().len() == count + slots.len()
    &&& forall|k: int|
        0 <= k < slots.len() ==> (#[trigger] slots[k]) == (StateSlot {
            owner: before.schema(),
            index: (count + k) as usize,
        })
    &&& forall|k: int|
        0 <= k < count ==> (#[trigger] after.versions()[k]) == before.versions()[k]
    &&& forall|k: int|
        count <= k < count + slots.len() ==> fresh_state(
            (#[trigger] after.versions()[k])@,
            k as usize,
            dtype,
            dims,
        )
}

/// Whether a version is the first of a slot.
pub open spec fn fresh_state(version: Value, index: usize, dtype: DType, dims: Seq<i64>) -> bool {
    &&& version.op == (OpModel::StateRead { state: index })
    &&& version.dims == dims
    &&& version.dtype == dtype
}

/// One more slot after others.
proof fn lemma_slots_added(
    before: StateGraph,
    middle: StateGraph,
    after: StateGraph,
    slots: Seq<StateSlot>,
    slot: StateSlot,
    dtype: DType,
    dims: Seq<i64>,
    path: Seq<char>,
)
    requires
        slots_added(before, middle, slots, dtype, dims),
        state_registered(middle, after, Ok(slot), dtype, dims, path),
        middle.versions().len() <= usize::MAX,
        after.versions().len() <= usize::MAX,
    ensures
        slots_added(before, after, slots.push(slot), dtype, dims),
        volume(dims) is Some,
{
    reveal(slots_added);
    let list = slots.push(slot);
    assert(after.abi() =~= before.abi() + slot_arguments(list));
    let count = before.versions().len();
    assert forall|k: int| count <= k < count + list.len() implies fresh_state(
        (#[trigger] after.versions()[k])@,
        k as usize,
        dtype,
        dims,
    ) by {
        if k < middle.versions().len() {
            assert(after.versions()[k] == middle.versions()[k]);
        }
    }
    assert forall|k: int| 0 <= k < count implies (#[trigger] after.versions()[k])
        == before.versions()[k] by {
        assert(after.versions()[k] == middle.versions()[k]);
    }
}

/// The outcome of recording updates: all of them, or none with nothing changed.
pub open spec fn recorded_updates(
    before: StateGraph,
    after: StateGraph,
    r: Result<(), Error>,
    updates: Updates,
) -> bool {
    match r {
        Ok(_) => {
            &&& updates_refusal(before.schema(), before.values(), updates, updates.len()) is None
            &&& after.wf()
            &&& after.tensors().extends(before.tensors())
            &&& after.abi() == before.abi()
            &&& after.inputs() == before.inputs()
            &&& after.versions().len() == before.versions().len()
            &&& after.values() == updated(before.values(), updates, updates.len())
            &&& replaced(
                before.versions(),
                after.versions(),
                updates,
                updates.len() as int,
                before.tensors().model().len(),
            )
        },
        Err(e) => {
            &&& updates_refusal(before.schema(), before.values(), updates, updates.len()) == Some(e)
            &&& after == before
        },
    }
}

/// Why a condition is refused.
pub open spec fn condition_refusal(owner: u64, condition: Value) -> Option<Error> {
    if condition.dtype != DType::F32 {
        Some(invalid("state condition must be F32"))
    } else if condition.graph != owner {
        Some(invalid("cross-graph state update condition"))
    } else if condition.dims.len() != 0 {
        Some(invalid("state update condition must be scalar"))
    } else {
        None
    }
}

/// What a condition selects: the proposal, or the current version.
#[verifier::opaque]
pub open spec fn chosen_version(condition: Value, proposed: Value, current: Value) -> Value {
    Expr::Is(condition).broadcast_to(proposed.dims).select(
        Expr::Is(proposed),
        Expr::Is(current),
    )->Is_0
}

/// What a condition selects of updates.
pub open spec fn chosen_updates(
    condition: Value,
    slots: Seq<Value>,
    updates: Updates,
) -> Updates {
    Seq::new(
        updates.len(),
        |k: int|
            (
                updates[k].0,
                chosen_version(condition, updates[k].1, slots[updates[k].0.index as int]),
            ),
    )
}

/// The outcome of recording updates under a condition: what it selects of all
/// of them, or none with nothing changed.
pub open spec fn conditionally_recorded(
    before: StateGraph,
    after: StateGraph,
    r: Result<(), Error>,
    condition: Value,
    updates: Updates,
) -> bool {
    let refusal = match condition_refusal(before.schema(), condition) {
        Some(e) => Some(e),
        None => updates_refusal(before.schema(), before.values(), updates, updates.len()),
    };
    match r {
        Ok(_) => {
            let chosen = chosen_updates(condition, before.values(), updates);
            &&& refusal is None
            &&& after.wf()
            &&& after.tensors().extends(before.tensors())
            &&& after.abi() == before.abi()
            &&& after.inputs() == before.inputs()
            &&& after.versions().len() == before.versions().len()
            &&& after.values() == updated(before.values(), chosen, chosen.len())
            &&& replaced(
                before.versions(),
                after.versions(),
                updates,
                updates.len() as int,
                before.tensors().model().len(),
            )
        },
        Err(e) => refusal == Some(e) && after == before,
    }
}

/// The selection of an accepted update succeeds, and has the extents and the
/// element type of the slot.
proof fn lemma_choice_lands(condition: Value, proposed: Value, current: Value)
    requires
        condition.dtype == DType::F32,
        condition.dims.len() == 0,
        condition.graph == proposed.graph,
        current.graph == proposed.graph,
        current.dims == proposed.dims,
        current.dtype == proposed.dtype,
        volume(proposed.dims) is Some,
    ensures
        Expr::Is(condition).broadcast_to(proposed.dims).select(
            Expr::Is(proposed),
            Expr::Is(current),
        ) == Expr::Is(chosen_version(condition, proposed, current)),
        chosen_version(condition, proposed, current).graph == condition.graph,
        chosen_version(condition, proposed, current).dims == proposed.dims,
        chosen_version(condition, proposed, current).dtype == proposed.dtype,
{
    let dims = proposed.dims;
    let mask = Expr::Is(condition).broadcast_to(dims);
    assert(mask matches Expr::Is(m) && m.graph == condition.graph && m.dims == dims && m.dtype
        == DType::F32) by {
        let axes = span(dims.len(), dims.len());
        assert(axes.len() == 0);
        assert(increasing(axes));
        assert(broadcasts(condition.dims, dims, axes));
        reveal(applied);
        assert(types_of(seq![condition])[0] == DType::F32);
    }
    let m = mask->Is_0;
    reveal(chosen_version);
    reveal(applied);
    let types = types_of(seq![m, proposed, current]);
    assert(types[0] == DType::F32);
    assert(types[1] == proposed.dtype);
    assert(types[2] == current.dtype);
}

/// What a condition selects of accepted updates is accepted: either all of the
/// proposals count or none.
pub proof fn condition_takes_all_or_none(
    owner: u64,
    slots: Seq<Value>,
    condition: Value,
    updates: Updates,
    count: nat,
)
    requires
        condition_refusal(owner, condition) is None,
        count <= updates.len(),
        updates_refusal(owner, slots, updates, count) is None,
        forall|k: int| 0 <= k < slots.len() ==> (#[trigger] slots[k]).graph == owner,
        forall|k: int| 0 <= k < updates.len() ==> volume((#[trigger] updates[k]).1.dims) is Some,
    ensures
        updates_refusal(owner, slots, chosen_updates(condition, slots, updates), count) is None,
    decreases count,
{
    let chosen = chosen_updates(condition, slots, updates);
    if count > 0 {
        condition_takes_all_or_none(owner, slots, condition, updates, (count - 1) as nat);
        let k = count - 1;
        assert(write_refusal(owner, slots, updates[k].0, updates[k].1) is None);
        assert(volume(updates[k].1.dims) is Some);
        lemma_choice_lands(condition, updates[k].1, slots[updates[k].0.index as int]);
        assert(chosen[k].0 == updates[k].0);
        assert(write_refusal(owner, slots, chosen[k].0, chosen[k].1) is None);
        if names(chosen, k, chosen[k].0.index) {
            let j = choose|j: int| 0 <= j < k && (#[trigger] chosen[j]).0.index == chosen[k].0.index;
            assert(updates[j].0.index == updates[k].0.index);
            assert(names(updates, k, updates[k].0.index));
        }
    }
}

/// A selection names the slots that the proposals name.
proof fn lemma_chosen_names(condition: Value, slots: Seq<Value>, updates: Updates)
    ensures
        forall|count: int, index: usize|
            count <= updates.len() ==> (#[trigger] names(
                chosen_updates(condition, slots, updates),
                count,
                index,
            ) <==> names(updates, count, index)),
{
    let chosen = chosen_updates(condition, slots, updates);
    assert forall|count: int, index: usize| count <= updates.len() implies (#[trigger] names(
        chosen,
        count,
        index,
    ) <==> names(updates, count, index)) by {
        if names(chosen, count, index) {
            let k = choose|k: int| 0 <= k < count && (#[trigger] chosen[k]).0.index == index;
            assert(updates[k].0.index == index);
        }
        if names(updates, count, index) {
            let k = choose|k: int| 0 <= k < count && (#[trigger] updates[k]).0.index == index;
            assert(chosen[k].0.index == index);
        }
    }
}

/// The current versions of a pair, or why they cannot be read.
pub open spec fn current_pair(state: StateGraph, slots: (StateSlot, StateSlot)) -> Result<
    (Value, Value),
    Error,
> {
    match (
        slot_refusal(state.schema(), state.versions().len(), slots.0),
        slot_refusal(state.schema(), state.versions().len(), slots.1),
    ) {
        (Some(e), _) => Err(e),
        (None, Some(e)) => Err(e),
        (None, None) => Ok(
            (
                state.versions()[slots.0.index as int]@,
                state.versions()[slots.1.index as int]@,
            ),
        ),
    }
}

/// The writes of a pair.
pub open spec fn pair_updates(slots: (StateSlot, StateSlot), keys: Value, values: Value) -> Updates {
    seq![(slots.0, keys), (slots.1, values)]
}

/// Whether updates were recorded with the given success, or
/// refused with every version as it was.
pub open spec fn updates_recorded(
    before: StateGraph,
    after: StateGraph,
    updates: Updates,
    success: bool,
    failure: Option<Error>,
) -> bool {
    match updates_refusal(before.schema(), before.values(), updates, updates.len()) {
        Some(e) => failure == Some(e) && after.grows(before),
        None => {
            &&& success
            &&& after.wf()
            &&& after.tensors().extends(before.tensors())
            &&& after.abi() == before.abi()
            &&& after.inputs() == before.inputs()
            &&& after.values() == updated(before.values(), updates, updates.len())
        },
    }
}

/// Whether conditional updates were recorded with the given
/// success, or refused with every version as it was.
pub open spec fn updates_recorded_if(
    before: StateGraph,
    after: StateGraph,
    condition: Value,
    updates: Updates,
    success: bool,
    failure: Option<Error>,
) -> bool {
    let chosen = chosen_updates(condition, before.values(), updates);
    match condition_refusal(before.schema(), condition) {
        Some(e) => failure == Some(e) && after.grows(before),
        None => match updates_refusal(
            before.schema(),
            before.values(),
            updates,
            updates.len(),
        ) {
            Some(e) => failure == Some(e) && after.grows(before),
            None => {
                &&& success
                &&& after.wf()
                &&& after.tensors().extends(before.tensors())
                &&& after.abi() == before.abi()
                &&& after.inputs() == before.inputs()
                &&& after.values() == updated(before.values(), chosen, chosen.len())
            },
        },
    }
}

} // verus!
