//! Sessions: the resident state of a program, its fixed inputs, and the
//! transition from one state to the next.
use crate::dtype::DType;
use crate::error::{err, invalid, Error};
use crate::graph::{TensorType, TypeModel};
use crate::op::copied;
use crate::plan::{
    accepted_slots_are_distinct, complete_layouts_hold_every_slot, distinct_indices_cover,
    incomplete, layout_of, layout_view, lemma_mapped, listed, Plan, PlanModel, StateProgram,
};
use crate::shape::same_dims;
use crate::state::{slot_refusal, validate_slot, Argument, Parameter, ParameterStorage, StateSlot};
use vstd::prelude::*;

verus! {

/// What is known of a device buffer: its handle, its client and its type.
#[derive(Debug)]
pub struct Buffer {
    pub handle: u64,
    pub client: u64,
    pub dtype: DType,
    pub dims: Vec<i64>,
}

/// The mathematical content of a buffer description.
pub ghost struct BufferModel {
    pub handle: u64,
    pub client: u64,
    pub dtype: DType,
    pub dims: Seq<i64>,
}

impl View for Buffer {
    type V = BufferModel;

    open spec fn view(&self) -> BufferModel {
        BufferModel {
            handle: self.handle,
            client: self.client,
            dtype: self.dtype,
            dims: self.dims@,
        }
    }
}

impl Buffer {
    /// Another description of the same buffer.
    pub fn duplicate(&self) -> (r: Buffer)
        ensures
            r@ == self@,
    {
        Buffer {
            handle: self.handle,
            client: self.client,
            dtype: self.dtype,
            dims: copied(&self.dims),
        }
    }

    /// Whether the buffer has a type.
    fn has_type(&self, ty: &TensorType) -> (r: bool)
        ensures
            r == fits(self@, ty@),
    {
        self.dtype == ty.dtype && same_dims(self.dims.as_slice(), ty.dims.as_slice())
    }
}

/// The contents of a list of buffers.
pub open spec fn buffers_view(buffers: Seq<Buffer>) -> Seq<BufferModel> {
    Seq::new(buffers.len(), |k: int| buffers[k]@)
}

/// Whether a buffer has a type.
pub open spec fn fits(buffer: BufferModel, ty: TypeModel) -> bool {
    buffer.dtype == ty.dtype && buffer.dims == ty.dims
}

/// Why a buffer is refused as state or result.
pub open spec fn buffer_refusal(client: u64, buffer: BufferModel, ty: TypeModel) -> Option<Error> {
    if buffer.client != client {
        Some(invalid("state/result buffer belongs to another client"))
    } else if !fits(buffer, ty) {
        Some(invalid("state/result buffer shape or dtype mismatch"))
    } else {
        None
    }
}

/// The refusal of a buffer as state or result.
fn validate_buffer(client: u64, buffer: &Buffer, ty: &TensorType) -> (r: Result<(), Error>)
    ensures
        match r {
            Ok(_) => buffer_refusal(client, buffer@, ty@) is None,
            Err(e) => buffer_refusal(client, buffer@, ty@) == Some(e),
        },
{
    if buffer.client != client {
        return Err(err("state/result buffer belongs to another client"));
    }
    if !buffer.has_type(ty) {
        return Err(err("state/result buffer shape or dtype mismatch"));
    }
    Ok(())
}

/// State buffers with the slots that they are for.
pub type Bindings = Seq<(StateSlot, BufferModel)>;

/// The contents of a list of state bindings.
pub open spec fn bindings_view(list: Seq<(StateSlot, Buffer)>) -> Bindings {
    Seq::new(list.len(), |k: int| (list[k].0, list[k].1@))
}

/// The refusal among the first `count` state bindings.
pub open spec fn bindings_refusal(
    m: PlanModel,
    client: u64,
    list: Bindings,
    count: nat,
) -> Option<Error>
    decreases count,
{
    if count == 0 {
        None
    } else {
        let (slot, buffer) = list[count - 1];
        match bindings_refusal(m, client, list, (count - 1) as nat) {
            Some(e) => Some(e),
            None => match slot_refusal(m.owner, m.states(), slot) {
                Some(e) => Some(e),
                None => match buffer_refusal(client, buffer, m.state(slot.index as int)) {
                    Some(e) => Some(e),
                    None => if exists|k: int|
                        0 <= k < count - 1 && (#[trigger] list[k]).0.index == slot.index {
                        Some(invalid("duplicate initial state slot"))
                    } else {
                        None
                    },
                },
            },
        }
    }
}

/// Why a list of state bindings is refused.
pub open spec fn binding_refusal(m: PlanModel, client: u64, list: Bindings) -> Option<Error> {
    if list.len() != m.states() {
        Some(invalid("initial state count mismatch"))
    } else {
        bindings_refusal(m, client, list, list.len())
    }
}

/// A refusal found early is the refusal in the end.
proof fn lemma_bindings_refused(
    m: PlanModel,
    client: u64,
    list: Bindings,
    early: nat,
    count: nat,
)
    requires
        early <= count,
        bindings_refusal(m, client, list, early) is Some,
    ensures
        bindings_refusal(m, client, list, count) == bindings_refusal(m, client, list, early),
    decreases count - early,
{
    if early < count {
        lemma_bindings_refused(m, client, list, early + 1, count);
    }
}

/// What holds of accepted state bindings.
proof fn lemma_bindings_accepted(m: PlanModel, client: u64, list: Bindings, count: nat)
    requires
        bindings_refusal(m, client, list, count) is None,
        count <= list.len(),
    ensures
        forall|k: int|
            0 <= k < count ==> (#[trigger] list[k]).0.owner == m.owner && list[k].0.index
                < m.states() && buffer_refusal(client, list[k].1, m.state(list[k].0.index as int))
                is None,
        forall|j: int, k: int|
            0 <= j < k < count ==> (#[trigger] list[j]).0.index != (#[trigger] list[k]).0.index,
    decreases count,
{
    if count > 0 {
        lemma_bindings_accepted(m, client, list, (count - 1) as nat);
        assert forall|j: int, k: int| 0 <= j < k < count implies (#[trigger] list[j]).0.index != (
        #[trigger] list[k]).0.index by {
            if k == count - 1 && list[j].0.index == list[k].0.index {
                assert(0 <= j < count - 1 && list[j].0.index == list[count - 1].0.index);
            }
        }
    }
}

/// Whether state holds, under each slot, the buffer bound to it.
pub open spec fn holds(states: Seq<BufferModel>, list: Bindings) -> bool {
    &&& states.len() == list.len()
    &&& forall|k: int| 0 <= k < list.len() ==> states[(#[trigger] list[k]).0.index as int] == list[k].1
}

/// Whether each state buffer belongs to the client and has its slot's type.
pub open spec fn resident(m: PlanModel, client: u64, states: Seq<BufferModel>) -> bool {
    &&& states.len() == m.states()
    &&& forall|i: int|
        0 <= i < states.len() ==> buffer_refusal(client, #[trigger] states[i], m.state(i)) is None
}

/// Accepted bindings determine the state: every slot is bound.
pub proof fn accepted_bindings_determine_the_state(
    m: PlanModel,
    client: u64,
    list: Bindings,
    a: Seq<BufferModel>,
    b: Seq<BufferModel>,
)
    requires
        binding_refusal(m, client, list) is None,
        holds(a, list),
        holds(b, list),
    ensures
        a == b,
{
    lemma_bindings_cover(m, client, list);
    assert forall|i: int| 0 <= i < a.len() implies a[i] == b[i] by {
        assert(bound(list, i));
        let k = choose|k: int| 0 <= k < list.len() && (#[trigger] list[k]).0.index == i;
    }
    assert(a =~= b);
}

/// Whether a slot number is bound.
pub open spec fn bound(list: Bindings, index: int) -> bool {
    exists|k: int| 0 <= k < list.len() && (#[trigger] list[k]).0.index == index
}

/// Accepted bindings bind every slot.
proof fn lemma_bindings_cover(m: PlanModel, client: u64, list: Bindings)
    requires
        binding_refusal(m, client, list) is None,
    ensures
        forall|i: int| 0 <= i < m.states() ==> #[trigger] bound(list, i),
{
    lemma_bindings_accepted(m, client, list, list.len());
    let indices = Seq::new(list.len(), |k: int| list[k].0.index as int);
    assert forall|j: int, k: int| 0 <= j < k < indices.len() implies #[trigger] indices[j]
        != #[trigger] indices[k] by {
        assert(list[j].0.index != list[k].0.index);
    }
    distinct_indices_cover(indices, m.states());
    assert forall|i: int| 0 <= i < m.states() implies #[trigger] bound(list, i) by {
        assert(indices.contains(i));
        let k = choose|k: int| 0 <= k < indices.len() && indices[k] == i;
        assert(list[k].0.index == i);
    }
}

/// Whether a place says where, among the first `count` bindings, a slot is
/// bound.
spec fn binding_place(list: Bindings, place: Option<usize>, index: int, count: int) -> bool {
    match place {
        Some(p) => p < count && list[p as int].0.index == index,
        None => forall|p: int| 0 <= p < count ==> (#[trigger] list[p]).0.index != index,
    }
}

/// Whether a place says where, among the first `count` bindings, an input is
/// fixed.
spec fn fixed_place(list: Fixed, place: Option<usize>, index: int, count: int) -> bool {
    match place {
        Some(p) => p < count && list[p as int].0 == index,
        None => forall|p: int| 0 <= p < count ==> (#[trigger] list[p]).0 != index,
    }
}

/// Whether a place says which buffer moves to a slot.
spec fn moved_place(
    states: Seq<BufferModel>,
    mapping: Seq<(StateSlot, StateSlot)>,
    place: Option<usize>,
    index: int,
    buffer: BufferModel,
) -> bool {
    match place {
        Some(p) => p < mapping.len() && mapping[p as int].1.index == index && buffer
            == states[mapping[p as int].0.index as int],
        None => false,
    }
}

/// How a visible input gets its buffer.
#[derive(Debug)]
pub enum InputBinding {
    /// The program does not take it.
    Unused,
    /// It is the argument of a run at a position.
    Dynamic(usize),
    /// It is always this buffer.
    Fixed(Buffer),
}

/// The mathematical content of an input binding.
pub ghost enum BindingModel {
    Unused,
    Dynamic(usize),
    Fixed(BufferModel),
}

impl View for InputBinding {
    type V = BindingModel;

    open spec fn view(&self) -> BindingModel {
        match self {
            InputBinding::Unused => BindingModel::Unused,
            InputBinding::Dynamic(index) => BindingModel::Dynamic(*index),
            InputBinding::Fixed(buffer) => BindingModel::Fixed(buffer@),
        }
    }
}

impl InputBinding {
    /// A copy of the binding.
    fn duplicate(&self) -> (r: InputBinding)
        ensures
            r@ == self@,
    {
        match self {
            InputBinding::Unused => InputBinding::Unused,
            InputBinding::Dynamic(index) => InputBinding::Dynamic(*index),
            InputBinding::Fixed(buffer) => InputBinding::Fixed(buffer.duplicate()),
        }
    }
}

/// The contents of a list of input bindings.
pub open spec fn inputs_view(inputs: Seq<InputBinding>) -> Seq<BindingModel> {
    Seq::new(inputs.len(), |k: int| inputs[k]@)
}

/// Fixed buffers with the numbers of the inputs that they are for.
pub type Fixed = Seq<(usize, BufferModel)>;

/// The contents of a list of fixed bindings.
pub open spec fn fixed_view(list: Seq<(usize, Buffer)>) -> Fixed {
    Seq::new(list.len(), |k: int| (list[k].0, list[k].1@))
}

/// Whether one of the first `count` fixed bindings is for an input.
pub open spec fn fixes(list: Fixed, count: int, index: int) -> bool {
    exists|k: int| 0 <= k < count && (#[trigger] list[k]).0 == index
}

/// Why one fixed binding is refused after the earlier ones.
pub open spec fn fixed_refusal(m: PlanModel, client: u64, list: Fixed, at: int) -> Option<Error> {
    let (index, buffer) = list[at];
    if index >= m.input_count {
        Some(invalid("bound input index out of range"))
    } else if fixes(list, at, index as int) {
        Some(invalid("duplicate bound input index"))
    } else {
        match m.map()[index as int] {
            None => Some(invalid("cannot bind a pruned input")),
            Some(position) => if buffer.client != client {
                Some(invalid("bound input belongs to another client"))
            } else if !fits(buffer, m.inputs[position as int]) {
                Some(Error::BoundInput { index })
            } else {
                None
            },
        }
    }
}

/// The first refusal among the first `count` fixed bindings.
pub open spec fn fixed_refusals(
    m: PlanModel,
    client: u64,
    list: Fixed,
    count: nat,
) -> Option<Error>
    decreases count,
{
    if count == 0 {
        None
    } else {
        match fixed_refusals(m, client, list, (count - 1) as nat) {
            Some(e) => Some(e),
            None => fixed_refusal(m, client, list, count - 1),
        }
    }
}

/// A refusal found early is the refusal in the end.
proof fn lemma_fixed_refused(m: PlanModel, client: u64, list: Fixed, early: nat, count: nat)
    requires
        early <= count,
        fixed_refusals(m, client, list, early) is Some,
    ensures
        fixed_refusals(m, client, list, count) == fixed_refusals(m, client, list, early),
    decreases count - early,
{
    if early < count {
        lemma_fixed_refused(m, client, list, early + 1, count);
    }
}

/// No binding is refused where no prefix is.
proof fn lemma_fixed_accepted(m: PlanModel, client: u64, list: Fixed, count: nat)
    requires
        fixed_refusals(m, client, list, count) is None,
        count <= list.len(),
    ensures
        forall|k: int|
            0 <= k < count ==> (#[trigger] list[k]).0 < m.input_count && fixed_refusal(
                m,
                client,
                list,
                k,
            ) is None,
    decreases count,
{
    if count > 0 {
        lemma_fixed_accepted(m, client, list, (count - 1) as nat);
    }
}

/// How many of the first `count` bindings are arguments of a run.
pub open spec fn dynamic_total(bindings: Seq<BindingModel>, count: nat) -> nat
    decreases count,
{
    if count == 0 {
        0
    } else {
        dynamic_total(bindings, (count - 1) as nat) + if bindings[count - 1] is Dynamic {
            1nat
        } else {
            0
        }
    }
}

/// A dynamic input is counted before any later one.
proof fn lemma_dynamic_grows(bindings: Seq<BindingModel>, low: nat, high: nat)
    requires
        low <= high <= bindings.len(),
    ensures
        dynamic_total(bindings, low) <= dynamic_total(bindings, high),
        low < high && bindings[low as int] is Dynamic ==> dynamic_total(bindings, low)
            < dynamic_total(bindings, high),
    decreases high - low,
{
    if low < high {
        lemma_dynamic_grows(bindings, low + 1, high);
    }
}

/// Counts are bounded by the number of inputs.
proof fn lemma_dynamic_bound(bindings: Seq<BindingModel>, count: nat)
    ensures
        dynamic_total(bindings, count) <= count,
    decreases count,
{
    if count > 0 {
        lemma_dynamic_bound(bindings, (count - 1) as nat);
    }
}

/// Whether the bindings of a session are those that fixed bindings leave: fixed
/// where one is for the input, unused where the program does not take it, and
/// otherwise an argument of a run, in order.
pub open spec fn arranged(m: PlanModel, list: Fixed, bindings: Seq<BindingModel>) -> bool {
    &&& bindings.len() == m.input_count
    &&& forall|k: int|
        0 <= k < list.len() ==> bindings[(#[trigger] list[k]).0 as int] == BindingModel::Fixed(
            list[k].1,
        )
    &&& forall|i: int|
        0 <= i < bindings.len() && !fixes(list, list.len() as int, i) ==> (
        #[trigger] bindings[i]) == if m.map()[i] is None {
            BindingModel::Unused
        } else {
            BindingModel::Dynamic(dynamic_total(bindings, i as nat) as usize)
        }
}

/// Whether the bindings of a session fit its program.
pub open spec fn bindings_wf(m: PlanModel, client: u64, bindings: Seq<BindingModel>) -> bool {
    &&& bindings.len() == m.input_count
    &&& forall|i: int|
        0 <= i < bindings.len() ==> match #[trigger] bindings[i] {
            BindingModel::Unused => m.map()[i] is None,
            BindingModel::Dynamic(index) => m.map()[i] is Some && index == dynamic_total(
                bindings,
                i as nat,
            ),
            BindingModel::Fixed(buffer) => m.map()[i] matches Some(position) && buffer.client
                == client && fits(buffer, m.inputs[position as int]),
        }
}

/// Why parameters cannot be bound as fixed inputs.
pub open spec fn parameter_binding_refusal(
    m: PlanModel,
    list: Seq<(Parameter, Buffer)>,
    count: nat,
) -> Option<Error>
    decreases count,
{
    if count == 0 {
        None
    } else {
        match parameter_binding_refusal(m, list, (count - 1) as nat) {
            Some(e) => Some(e),
            None => if list[count - 1].0.schema() != m.owner {
                Some(invalid("parameter belongs to another schema"))
            } else if list[count - 1].0.place() is State {
                Some(
                    invalid(
                        "resident parameters require state initialization, not fixed input binding",
                    ),
                )
            } else {
                None
            },
        }
    }
}

/// A refusal found early is the refusal in the end.
proof fn lemma_parameters_refused(
    m: PlanModel,
    list: Seq<(Parameter, Buffer)>,
    early: nat,
    count: nat,
)
    requires
        early <= count,
        parameter_binding_refusal(m, list, early) is Some,
    ensures
        parameter_binding_refusal(m, list, count) == parameter_binding_refusal(m, list, early),
    decreases count - early,
{
    if early < count {
        lemma_parameters_refused(m, list, early + 1, count);
    }
}

/// The numbered bindings of input parameters.
pub open spec fn indexed(list: Seq<(Parameter, Buffer)>) -> Fixed {
    Seq::new(
        list.len(),
        |k: int|
            (
                match list[k].0.place() {
                    ParameterStorage::Input(index) => index,
                    ParameterStorage::State(_) => 0,
                },
                list[k].1@,
            ),
    )
}

/// The fixed bindings that parameters stand for.
fn input_parameter_bindings(program: &StateProgram, bindings: &Vec<(Parameter, Buffer)>) -> (r:
    Result<Vec<(usize, Buffer)>, Error>)
    requires
        program.wf(),
    ensures
        match r {
            Ok(list) => parameter_binding_refusal(program@, bindings@, bindings@.len()) is None
                && fixed_view(list@) == indexed(bindings@),
            Err(e) => parameter_binding_refusal(program@, bindings@, bindings@.len()) == Some(e),
        },
{
    let mut list: Vec<(usize, Buffer)> = Vec::new();
    let mut i: usize = 0;
    while i < bindings.len()
        invariant
            program.wf(),
            i <= bindings@.len(),
            parameter_binding_refusal(program@, bindings@, i as nat) is None,
            list@.len() == i,
            forall|k: int|
                0 <= k < i ==> (#[trigger] list@[k]).0 == indexed(bindings@)[k].0 && list@[k].1@
                    == bindings@[k].1@,
        decreases bindings@.len() - i,
    {
        proof {
            if parameter_binding_refusal(program@, bindings@, (i + 1) as nat) is Some {
                lemma_parameters_refused(
                    program@,
                    bindings@,
                    (i + 1) as nat,
                    bindings@.len(),
                );
            }
        }
        let parameter: &Parameter = &bindings[i].0;
        if parameter.owner() != program.plan().owner() {
            return Err(err("parameter belongs to another schema"));
        }
        match parameter.storage() {
            ParameterStorage::Input(index) => {
                list.push((index, bindings[i].1.duplicate()));
            },
            ParameterStorage::State(_) => {
                return Err(
                    err("resident parameters require state initialization, not fixed input binding"),
                );
            },
        }
        i += 1;
    }
    assert(fixed_view(list@) =~= indexed(bindings@));
    Ok(list)
}

impl StateProgram {
    /// The state buffers in slot order, if every slot is bound exactly once.
    fn bind_states(&self, initial: &Vec<(StateSlot, Buffer)>) -> (r: Result<Vec<Buffer>, Error>)
        requires
            self.wf(),
        ensures
            match r {
                Ok(states) => {
                    &&& binding_refusal(self@, self.device(), bindings_view(initial@)) is None
                    &&& holds(buffers_view(states@), bindings_view(initial@))
                    &&& resident(self@, self.device(), buffers_view(states@))
                },
                Err(e) => binding_refusal(self@, self.device(), bindings_view(initial@)) == Some(e),
            },
    {
        let plan: &Plan = self.plan();
        let count: usize = plan.state_count();
        let ghost m = self@;
        let ghost client = self.device();
        let ghost list = bindings_view(initial@);
        if initial.len() != count {
            return Err(err("initial state count mismatch"));
        }
        let mut places: Vec<Option<usize>> = Vec::new();
        let mut i: usize = 0;
        while i < count
            invariant
                i <= count,
                places@.len() == i,
                forall|k: int| 0 <= k < i ==> (#[trigger] places@[k]) is None,
            decreases count - i,
        {
            places.push(None);
            i += 1;
        }
        let mut k: usize = 0;
        while k < initial.len()
            invariant
                plan.wf(),
                plan@ == m,
                m == self@,
                client == self.device(),
                list == bindings_view(initial@),
                count == m.states(),
                initial@.len() == count,
                places@.len() == count,
                k <= count,
                bindings_refusal(m, client, list, k as nat) is None,
                forall|j: int|
                    0 <= j < count ==> binding_place(
                        list,
                        #[trigger] places@[j],
                        j,
                        k as int,
                    ),
            decreases count - k,
        {
            let ghost next = (k + 1) as nat;
            assert(list[k as int] == (initial@[k as int].0, initial@[k as int].1@));
            proof {
                if bindings_refusal(m, client, list, next) is Some {
                    lemma_bindings_refused(m, client, list, next, list.len());
                }
            }
            let slot: StateSlot = initial[k].0;
            validate_slot(plan.owner(), count, &slot)?;
            validate_buffer(self.client(), &initial[k].1, plan.state_at(slot.index))?;
            if places[slot.index].is_some() {
                proof {
                    let p = places@[slot.index as int]->Some_0;
                    assert(list[p as int].0.index == slot.index);
                }
                return Err(err("duplicate initial state slot"));
            }
            places.set(slot.index, Some(k));
            k += 1;
        }
        proof {
            lemma_bindings_cover(m, client, list);
            lemma_bindings_accepted(m, client, list, list.len());
        }
        let mut states: Vec<Buffer> = Vec::new();
        let mut j: usize = 0;
        while j < count
            invariant
                m == self@,
                list == bindings_view(initial@),
                count == m.states(),
                initial@.len() == count,
                places@.len() == count,
                j <= count,
                states@.len() == j,
                forall|i: int| 0 <= i < m.states() ==> #[trigger] bound(list, i),
                forall|i: int|
                    0 <= i < count ==> binding_place(
                        list,
                        #[trigger] places@[i],
                        i,
                        count as int,
                    ),
                forall|i: int|
                    0 <= i < j ==> (#[trigger] states@[i])@ == list[places@[i]->Some_0 as int].1
                        && places@[i] is Some,
            decreases count - j,
        {
            assert(bound(list, j as int));
            match places[j] {
                Some(p) => {
                    assert(list[p as int] == (initial@[p as int].0, initial@[p as int].1@));
                    states.push(initial[p].1.duplicate());
                },
                None => {
                    proof {
                        let p = choose|p: int|
                            0 <= p < list.len() && (#[trigger] list[p]).0.index == j;
                        assert(false);
                    }
                },
            }
            j += 1;
        }
        proof {
            let held = buffers_view(states@);
            assert forall|p: int| 0 <= p < list.len() implies held[(
            #[trigger] list[p]).0.index as int] == list[p].1 by {
                let i = list[p].0.index as int;
                assert(places@[i] is Some);
                let q = places@[i]->Some_0 as int;
                assert(list[q].0.index == list[p].0.index);
                if q < p {
                    assert(list[q].0.index != list[p].0.index);
                } else if p < q {
                    assert(list[p].0.index != list[q].0.index);
                }
                assert(held[i] == states@[i]@);
            }
            assert forall|i: int| 0 <= i < held.len() implies buffer_refusal(
                client,
                #[trigger] held[i],
                m.state(i),
            ) is None by {
                let q = places@[i]->Some_0 as int;
                assert(states@[i]@ == list[q].1);
                assert(list[q].0.index == i);
            }
        }
        Ok(states)
    }

    /// State buffers with their slots.
    fn identify_states(&self, states: &Vec<Buffer>) -> (r: Vec<(StateSlot, Buffer)>)
        requires
            self.wf(),
        ensures
            bindings_view(r@) == identified(self@.owner, buffers_view(states@)),
    {
        let owner: u64 = self.plan().owner();
        let mut list: Vec<(StateSlot, Buffer)> = Vec::new();
        let mut i: usize = 0;
        while i < states.len()
            invariant
                owner == self@.owner,
                i <= states@.len(),
                list@.len() == i,
                forall|k: int|
                    0 <= k < i ==> (#[trigger] list@[k]).0 == (StateSlot {
                        owner,
                        index: k as usize,
                    }) && list@[k].1@ == states@[k]@,
            decreases states@.len() - i,
        {
            list.push((StateSlot { owner, index: i }, states[i].duplicate()));
            i += 1;
        }
        assert(bindings_view(list@) =~= identified(self@.owner, buffers_view(states@)));
        list
    }

    /// A session with the given initial state and no fixed inputs. Order is
    /// irrelevant; every slot must appear exactly once.
    pub fn session(&self, initial: Vec<(StateSlot, Buffer)>) -> (r: Result<Session, Error>)
        requires
            self.wf(),
        ensures
            match r {
                Ok(session) => {
                    &&& binding_refusal(self@, self.device(), bindings_view(initial@)) is None
                    &&& session.wf()
                    &&& session.plan() == self@
                    &&& session.device() == self.device()
                    &&& holds(session.held(), bindings_view(initial@))
                    &&& arranged(self@, Seq::empty(), session.bindings())
                },
                Err(e) => binding_refusal(self@, self.device(), bindings_view(initial@)) == Some(e),
            },
    {
        let states: Vec<Buffer> = self.bind_states(&initial)?;
        let none: Vec<(usize, Buffer)> = Vec::new();
        assert(fixed_view(none@) =~= Seq::<(usize, BufferModel)>::empty());
        let (inputs, dynamic_input_count) = self.arrange(&none)?;
        Ok(Session { program: self.duplicate(), states, inputs, dynamic_input_count })
    }

    /// The input bindings that a list of fixed bindings leaves.
    fn arrange(&self, bindings: &Vec<(usize, Buffer)>) -> (r: Result<
        (Vec<InputBinding>, usize),
        Error,
    >)
        requires
            self.wf(),
        ensures
            match r {
                Ok((inputs, count)) => {
                    &&& fixed_refusals(
                        self@,
                        self.device(),
                        fixed_view(bindings@),
                        bindings@.len(),
                    ) is None
                    &&& arranged(self@, fixed_view(bindings@), inputs_view(inputs@))
                    &&& bindings_wf(self@, self.device(), inputs_view(inputs@))
                    &&& count == dynamic_total(inputs_view(inputs@), inputs@.len())
                },
                Err(e) => fixed_refusals(
                    self@,
                    self.device(),
                    fixed_view(bindings@),
                    bindings@.len(),
                ) == Some(e),
            },
    {
        let plan: &Plan = self.plan();
        let total: usize = plan.input_count();
        let ghost m = self@;
        let ghost client = self.device();
        let ghost list = fixed_view(bindings@);
        let mut places: Vec<Option<usize>> = Vec::new();
        let mut i: usize = 0;
        while i < total
            invariant
                i <= total,
                places@.len() == i,
                forall|k: int| 0 <= k < i ==> (#[trigger] places@[k]) is None,
            decreases total - i,
        {
            places.push(None);
            i += 1;
        }
        let mut k: usize = 0;
        while k < bindings.len()
            invariant
                plan.wf(),
                plan@ == m,
                m == self@,
                client == self.device(),
                total == m.input_count,
                list == fixed_view(bindings@),
                places@.len() == total,
                k <= bindings@.len(),
                fixed_refusals(m, client, list, k as nat) is None,
                forall|j: int|
                    0 <= j < total ==> fixed_place(list, #[trigger] places@[j], j, k as int),
            decreases bindings@.len() - k,
        {
            let ghost next = (k + 1) as nat;
            assert(list[k as int] == (bindings@[k as int].0, bindings@[k as int].1@));
            proof {
                if fixed_refusals(m, client, list, next) is Some {
                    lemma_fixed_refused(m, client, list, next, list.len());
                }
            }
            let index: usize = bindings[k].0;
            if index >= total {
                return Err(err("bound input index out of range"));
            }
            if places[index].is_some() {
                proof {
                    let p = places@[index as int]->Some_0;
                    assert(list[p as int].0 == index);
                }
                return Err(err("duplicate bound input index"));
            }
            assert(!fixes(list, k as int, index as int));
            match plan.position(index) {
                None => {
                    return Err(err("cannot bind a pruned input"));
                },
                Some(position) => {
                    if bindings[k].1.client != self.client() {
                        return Err(err("bound input belongs to another client"));
                    }
                    proof {
                        plan.lemma_lengths();
                        lemma_mapped(m, index as int);
                    }
                    if !bindings[k].1.has_type(plan.input_type(position)) {
                        return Err(Error::BoundInput { index });
                    }
                },
            }
            places.set(index, Some(k));
            k += 1;
        }
        proof {
            lemma_fixed_accepted(m, client, list, list.len());
        }
        let mut inputs: Vec<InputBinding> = Vec::new();
        let mut count: usize = 0;
        let mut j: usize = 0;
        while j < total
            invariant
                plan.wf(),
                plan@ == m,
                m == self@,
                client == self.device(),
                total == m.input_count,
                list == fixed_view(bindings@),
                places@.len() == total,
                j <= total,
                inputs@.len() == j,
                count == dynamic_total(inputs_view(inputs@), j as nat),
                count <= j,
                forall|p: int|
                    0 <= p < list.len() ==> (#[trigger] list[p]).0 < m.input_count
                        && fixed_refusal(m, client, list, p) is None,
                forall|i: int|
                    0 <= i < total ==> fixed_place(
                        list,
                        #[trigger] places@[i],
                        i,
                        list.len() as int,
                    ),
                forall|i: int|
                    0 <= i < j ==> (#[trigger] inputs@[i])@ == match places@[i] {
                        Some(p) => BindingModel::Fixed(list[p as int].1),
                        None => if m.map()[i] is None {
                            BindingModel::Unused
                        } else {
                            BindingModel::Dynamic(
                                dynamic_total(inputs_view(inputs@), i as nat) as usize,
                            )
                        },
                    },
            decreases total - j,
        {
            let ghost before = inputs_view(inputs@);
            match places[j] {
                Some(p) => {
                    assert(list[p as int] == (bindings@[p as int].0, bindings@[p as int].1@));
                    inputs.push(InputBinding::Fixed(bindings[p].1.duplicate()));
                },
                None => match plan.position(j) {
                    None => {
                        inputs.push(InputBinding::Unused);
                    },
                    Some(_) => {
                        inputs.push(InputBinding::Dynamic(count));
                        count += 1;
                    },
                },
            }
            proof {
                let after = inputs_view(inputs@);
                assert forall|n: nat| n <= j implies #[trigger] dynamic_total(after, n)
                    == dynamic_total(before, n) by {
                    lemma_dynamic_prefix(before, after, n);
                }
                lemma_dynamic_prefix(before, after, j as nat);
                assert(after[j as int] == inputs@[j as int]@);
            }
            j += 1;
        }
        proof {
            let held = inputs_view(inputs@);
            assert forall|p: int| 0 <= p < list.len() implies held[(
            #[trigger] list[p]).0 as int] == BindingModel::Fixed(list[p].1) by {
                let i = list[p].0 as int;
                assert(places@[i] is Some);
                let q = places@[i]->Some_0 as int;
                assert(list[q].0 == list[p].0);
                assert(fixed_refusal(m, client, list, p) is None);
                assert(fixed_refusal(m, client, list, q) is None);
                if q < p {
                    assert(fixes(list, p, i));
                } else if p < q {
                    assert(fixes(list, q, i));
                }
                assert(inputs@[i]@ == held[i]);
            }
            assert forall|i: int|
                0 <= i < held.len() && !fixes(list, list.len() as int, i) implies (
            #[trigger] held[i]) == if m.map()[i] is None {
                BindingModel::Unused
            } else {
                BindingModel::Dynamic(dynamic_total(held, i as nat) as usize)
            } by {
                assert(inputs@[i]@ == held[i]);
                if places@[i] is Some {
                    let p = places@[i]->Some_0 as int;
                    assert(list[p].0 == i);
                    assert(fixes(list, list.len() as int, i));
                }
            }
            assert forall|i: int| 0 <= i < held.len() implies match #[trigger] held[i] {
                BindingModel::Unused => m.map()[i] is None,
                BindingModel::Dynamic(index) => m.map()[i] is Some && index == dynamic_total(
                    held,
                    i as nat,
                ),
                BindingModel::Fixed(buffer) => m.map()[i] matches Some(position) && buffer.client
                    == client && fits(buffer, m.inputs[position as int]),
            } by {
                assert(inputs@[i]@ == held[i]);
                lemma_dynamic_bound(held, i as nat);
                if places@[i] is Some {
                    let p = places@[i]->Some_0 as int;
                    assert(list[p].0 == i);
                    assert(fixed_refusal(m, client, list, p) is None);
                }
            }
        }
        Ok((inputs, count))
    }
}

/// Counts agree on a common prefix.
proof fn lemma_dynamic_prefix(a: Seq<BindingModel>, b: Seq<BindingModel>, count: nat)
    requires
        count <= a.len(),
        count <= b.len(),
        forall|k: int| 0 <= k < count ==> a[k] == b[k],
    ensures
        dynamic_total(a, count) == dynamic_total(b, count),
    decreases count,
{
    if count > 0 {
        lemma_dynamic_prefix(a, b, (count - 1) as nat);
    }
}

/// State buffers with their slots, in slot order.
pub open spec fn identified(owner: u64, states: Seq<BufferModel>) -> Bindings {
    Seq::new(states.len(), |k: int| (StateSlot { owner, index: k as usize }, states[k]))
}

/// What a session returns of its state can initialise another session of the
/// program: it is accepted, and holds the same state.
pub proof fn returned_state_can_be_bound_again(
    m: PlanModel,
    client: u64,
    states: Seq<BufferModel>,
    count: nat,
)
    requires
        resident(m, client, states),
        states.len() <= usize::MAX,
        count <= states.len(),
    ensures
        bindings_refusal(m, client, identified(m.owner, states), count) is None,
        holds(states, identified(m.owner, states)),
    decreases count,
{
    let list = identified(m.owner, states);
    if count > 0 {
        returned_state_can_be_bound_again(m, client, states, (count - 1) as nat);
        assert(buffer_refusal(client, states[count - 1], m.state(count - 1)) is None);
        assert forall|k: int| 0 <= k < count - 1 implies (#[trigger] list[k]).0.index != list[count
            - 1].0.index by {}
    }
}

/// The arguments of a run.
pub open spec fn run_arguments(
    m: PlanModel,
    bindings: Seq<BindingModel>,
    states: Seq<BufferModel>,
    inputs: Seq<BufferModel>,
) -> Seq<BufferModel> {
    Seq::new(
        m.arguments.len(),
        |p: int|
            match m.arguments[p] {
                Argument::Input(i) => match bindings[i as int] {
                    BindingModel::Dynamic(index) => inputs[index as int],
                    BindingModel::Fixed(buffer) => buffer,
                    BindingModel::Unused => inputs[0],
                },
                Argument::State(i) => states[i as int],
            },
    )
}

/// The first refusal among the first `count` outputs of a run.
pub open spec fn outputs_refusal(
    m: PlanModel,
    client: u64,
    outputs: Seq<BufferModel>,
    count: nat,
) -> Option<Error>
    decreases count,
{
    if count == 0 {
        None
    } else {
        match outputs_refusal(m, client, outputs, (count - 1) as nat) {
            Some(e) => Some(e),
            None => buffer_refusal(client, outputs[count - 1], m.types[count - 1]),
        }
    }
}

/// A refusal found early is the refusal in the end.
proof fn lemma_outputs_refused(
    m: PlanModel,
    client: u64,
    outputs: Seq<BufferModel>,
    early: nat,
    count: nat,
)
    requires
        early <= count,
        outputs_refusal(m, client, outputs, early) is Some,
    ensures
        outputs_refusal(m, client, outputs, count) == outputs_refusal(m, client, outputs, early),
    decreases count - early,
{
    if early < count {
        lemma_outputs_refused(m, client, outputs, early + 1, count);
    }
}

/// Every accepted output has its type.
proof fn lemma_outputs_accepted(
    m: PlanModel,
    client: u64,
    outputs: Seq<BufferModel>,
    count: nat,
)
    requires
        outputs_refusal(m, client, outputs, count) is None,
        count <= outputs.len(),
    ensures
        forall|k: int|
            0 <= k < count ==> buffer_refusal(client, #[trigger] outputs[k], m.types[k]) is None,
    decreases count,
{
    if count > 0 {
        lemma_outputs_accepted(m, client, outputs, (count - 1) as nat);
    }
}

/// Why the outcome of a run is refused.
pub open spec fn run_refusal(
    m: PlanModel,
    client: u64,
    dynamic: nat,
    inputs: nat,
    outcome: Result<Seq<BufferModel>, Error>,
) -> Option<Error> {
    if inputs != dynamic {
        Some(invalid("session input count mismatch"))
    } else {
        match outcome {
            Err(e) => Some(e),
            Ok(outputs) => if outputs.len() != m.types.len() {
                Some(invalid("stateful execution output count mismatch"))
            } else {
                outputs_refusal(m, client, outputs, outputs.len())
            },
        }
    }
}

/// The contents of the outcome of an execution.
pub open spec fn outcome_view(outcome: Result<Vec<Buffer>, Error>) -> Result<
    Seq<BufferModel>,
    Error,
> {
    match outcome {
        Ok(outputs) => Ok(buffers_view(outputs@)),
        Err(e) => Err(e),
    }
}

/// The slots of one side of a state mapping.
pub open spec fn sources(mapping: Seq<(StateSlot, StateSlot)>) -> Seq<StateSlot> {
    Seq::new(mapping.len(), |k: int| mapping[k].0)
}

/// The slots of the other side of a state mapping.
pub open spec fn destinations(mapping: Seq<(StateSlot, StateSlot)>) -> Seq<StateSlot> {
    Seq::new(mapping.len(), |k: int| mapping[k].1)
}

/// The first refusal of a moved buffer among the first `count` of a mapping.
pub open spec fn moves_refusal(
    to: PlanModel,
    client: u64,
    states: Seq<BufferModel>,
    mapping: Seq<(StateSlot, StateSlot)>,
    count: nat,
) -> Option<Error>
    decreases count,
{
    if count == 0 {
        None
    } else {
        match moves_refusal(to, client, states, mapping, (count - 1) as nat) {
            Some(e) => Some(e),
            None => buffer_refusal(
                client,
                states[mapping[count - 1].0.index as int],
                to.state(mapping[count - 1].1.index as int),
            ),
        }
    }
}

/// A refusal found early is the refusal in the end.
proof fn lemma_moves_refused(
    to: PlanModel,
    client: u64,
    states: Seq<BufferModel>,
    mapping: Seq<(StateSlot, StateSlot)>,
    early: nat,
    count: nat,
)
    requires
        early <= count,
        moves_refusal(to, client, states, mapping, early) is Some,
    ensures
        moves_refusal(to, client, states, mapping, count) == moves_refusal(
            to,
            client,
            states,
            mapping,
            early,
        ),
    decreases count - early,
{
    if early < count {
        lemma_moves_refused(to, client, states, mapping, early + 1, count);
    }
}

/// Every accepted move keeps the type.
proof fn lemma_moves_accepted(
    to: PlanModel,
    client: u64,
    states: Seq<BufferModel>,
    mapping: Seq<(StateSlot, StateSlot)>,
    count: nat,
)
    requires
        moves_refusal(to, client, states, mapping, count) is None,
        count <= mapping.len(),
    ensures
        forall|k: int|
            0 <= k < count ==> buffer_refusal(
                client,
                states[(#[trigger] mapping[k]).0.index as int],
                to.state(mapping[k].1.index as int),
            ) is None,
    decreases count,
{
    if count > 0 {
        lemma_moves_accepted(to, client, states, mapping, (count - 1) as nat);
    }
}

/// Why a switch of programs is refused.
pub open spec fn switch_refusal(
    from: PlanModel,
    to: PlanModel,
    client: u64,
    states: Seq<BufferModel>,
    mapping: Seq<(StateSlot, StateSlot)>,
    fixed: Fixed,
) -> Option<Error> {
    match incomplete(from.owner, from.states(), sources(mapping)) {
        Some(e) => Some(e),
        None => match incomplete(to.owner, to.states(), destinations(mapping)) {
            Some(e) => Some(e),
            None => if layout_of(from, sources(mapping)) != layout_of(to, destinations(mapping)) {
                Some(invalid("program switch state dtype or shape mismatch"))
            } else {
                match moves_refusal(to, client, states, mapping, mapping.len()) {
                    Some(e) => Some(e),
                    None => fixed_refusals(to, client, fixed, fixed.len()),
                }
            },
        },
    }
}

/// Whether state has moved along a mapping.
pub open spec fn moved(
    before: Seq<BufferModel>,
    after: Seq<BufferModel>,
    mapping: Seq<(StateSlot, StateSlot)>,
) -> bool {
    &&& after.len() == mapping.len()
    &&& forall|k: int|
        0 <= k < mapping.len() ==> after[(#[trigger] mapping[k]).1.index as int]
            == before[mapping[k].0.index as int]
}

/// A mapping read in the other direction.
pub open spec fn inverted(mapping: Seq<(StateSlot, StateSlot)>) -> Seq<(StateSlot, StateSlot)> {
    Seq::new(mapping.len(), |k: int| (mapping[k].1, mapping[k].0))
}

/// Switching programs along a complete mapping and back restores every buffer:
/// nothing is lost, doubled or exchanged.
pub proof fn switching_there_and_back_restores(
    owner: u64,
    before: Seq<BufferModel>,
    between: Seq<BufferModel>,
    after: Seq<BufferModel>,
    mapping: Seq<(StateSlot, StateSlot)>,
)
    requires
        incomplete(owner, before.len(), sources(mapping)) is None,
        moved(before, between, mapping),
        moved(between, after, inverted(mapping)),
    ensures
        after == before,
{
    complete_layouts_hold_every_slot(owner, before.len(), sources(mapping));
    assert forall|i: int| 0 <= i < before.len() implies after[i] == before[i] by {
        assert(listed(sources(mapping), i));
        let k = choose|k: int|
            0 <= k < sources(mapping).len() && (#[trigger] sources(mapping)[k]).index == i;
        assert(mapping[k].0.index == i);
        assert(inverted(mapping)[k].1.index == i);
    }
    assert(after =~= before);
}

/// The host payload sizes that a transfer may have.
pub open spec fn payload_refusal(
    sizes: Seq<usize>,
    max_tensor: usize,
    max_total: usize,
    count: nat,
) -> Option<Error>
    decreases count,
{
    if count == 0 {
        None
    } else {
        match payload_refusal(sizes, max_tensor, max_total, (count - 1) as nat) {
            Some(e) => Some(e),
            None => if sizes[count - 1] > max_tensor {
                Some(invalid("state tensor host payload exceeds per-tensor limit"))
            } else if payload_total(sizes, count) > usize::MAX {
                Some(invalid("state host payload size overflow"))
            } else if payload_total(sizes, count) > max_total {
                Some(invalid("state host payload exceeds total limit"))
            } else {
                None
            },
        }
    }
}

/// The bytes of the first `count` payloads.
pub open spec fn payload_total(sizes: Seq<usize>, count: nat) -> nat
    decreases count,
{
    if count == 0 {
        0
    } else {
        payload_total(sizes, (count - 1) as nat) + sizes[count - 1] as nat
    }
}

/// A refusal found early is the refusal in the end.
proof fn lemma_payload_refused(
    sizes: Seq<usize>,
    max_tensor: usize,
    max_total: usize,
    early: nat,
    count: nat,
)
    requires
        early <= count,
        payload_refusal(sizes, max_tensor, max_total, early) is Some,
    ensures
        payload_refusal(sizes, max_tensor, max_total, count) == payload_refusal(
            sizes,
            max_tensor,
            max_total,
            early,
        ),
    decreases count - early,
{
    if early < count {
        lemma_payload_refused(sizes, max_tensor, max_total, early + 1, count);
    }
}

/// An accepted transfer stays within both limits.
pub proof fn accepted_payloads_stay_within_limits(
    sizes: Seq<usize>,
    max_tensor: usize,
    max_total: usize,
    count: nat,
)
    requires
        payload_refusal(sizes, max_tensor, max_total, count) is None,
        count <= sizes.len(),
    ensures
        payload_total(sizes, count) <= max_total,
        forall|k: int| 0 <= k < count ==> #[trigger] sizes[k] <= max_tensor,
    decreases count,
{
    if count > 0 {
        accepted_payloads_stay_within_limits(sizes, max_tensor, max_total, (count - 1) as nat);
    }
}

/// The host payload of a transfer, if each payload and their sum stay within
/// their limits.
pub fn check_host_payloads(sizes: &[usize], max_tensor: usize, max_total: usize) -> (r: Result<
    usize,
    Error,
>)
    ensures
        match r {
            Ok(total) => payload_refusal(sizes@, max_tensor, max_total, sizes@.len()) is None
                && total == payload_total(sizes@, sizes@.len()),
            Err(e) => payload_refusal(sizes@, max_tensor, max_total, sizes@.len()) == Some(e),
        },
{
    let mut total: usize = 0;
    let mut i: usize = 0;
    while i < sizes.len()
        invariant
            i <= sizes@.len(),
            total == payload_total(sizes@, i as nat),
            payload_refusal(sizes@, max_tensor, max_total, i as nat) is None,
        decreases sizes@.len() - i,
    {
        proof {
            if payload_refusal(sizes@, max_tensor, max_total, (i + 1) as nat) is Some {
                lemma_payload_refused(
                    sizes@,
                    max_tensor,
                    max_total,
                    (i + 1) as nat,
                    sizes@.len(),
                );
            }
        }
        let bytes: usize = sizes[i];
        if bytes > max_tensor {
            return Err(err("state tensor host payload exceeds per-tensor limit"));
        }
        total = match total.checked_add(bytes) {
            Some(sum) => sum,
            None => {
                return Err(err("state host payload size overflow"));
            },
        };
        if total > max_total {
            return Err(err("state host payload exceeds total limit"));
        }
        i += 1;
    }
    Ok(total)
}

/// Exclusive state of one running program.
pub struct Session {
    program: StateProgram,
    states: Vec<Buffer>,
    inputs: Vec<InputBinding>,
    dynamic_input_count: usize,
}

impl Session {
    /// The plan of the session.
    pub closed spec fn plan(self) -> PlanModel {
        self.program@
    }

    /// The client of the session.
    pub closed spec fn device(self) -> u64 {
        self.program.device()
    }

    /// The resident state buffers, in slot order.
    pub closed spec fn held(self) -> Seq<BufferModel> {
        buffers_view(self.states@)
    }

    /// The bindings of all visible inputs.
    pub closed spec fn bindings(self) -> Seq<BindingModel> {
        inputs_view(self.inputs@)
    }

    /// The number of buffers that a run takes.
    pub open spec fn dynamic(self) -> nat {
        dynamic_total(self.bindings(), self.bindings().len())
    }

    /// State and bindings fit the program.
    pub closed spec fn wf(self) -> bool {
        &&& self.program.wf()
        &&& resident(self.plan(), self.device(), self.held())
        &&& bindings_wf(self.plan(), self.device(), self.bindings())
        &&& self.dynamic_input_count == self.dynamic()
    }

    /// What holds of every session.
    pub proof fn lemma_wf(self)
        requires
            self.wf(),
        ensures
            self.plan().wf(),
            resident(self.plan(), self.device(), self.held()),
            bindings_wf(self.plan(), self.device(), self.bindings()),
            self.held().len() <= usize::MAX,
    {
        self.program.lemma_lengths();
        assert(self.states.len() <= usize::MAX);
    }

    /// The program of the session.
    pub fn program(&self) -> (r: &StateProgram)
        requires
            self.wf(),
        ensures
            r.wf(),
            r@ == self.plan(),
            r.device() == self.device(),
    {
        &self.program
    }

    /// The number of buffers that a run takes.
    pub fn input_count(&self) -> (r: usize)
        requires
            self.wf(),
        ensures
            r == self.dynamic(),
    {
        self.dynamic_input_count
    }

    /// The resident buffer of a slot.
    pub fn state(&self, slot: &StateSlot) -> (r: Result<&Buffer, Error>)
        requires
            self.wf(),
        ensures
            match r {
                Ok(buffer) => {
                    &&& slot_refusal(self.plan().owner, self.plan().states(), *slot) is None
                    &&& buffer@ == self.held()[slot.index as int]
                },
                Err(e) => slot_refusal(self.plan().owner, self.plan().states(), *slot) == Some(e),
            },
    {
        validate_slot(self.program.plan().owner(), self.states.len(), slot)?;
        assert(self.held()[slot.index as int] == self.states@[slot.index as int]@);
        Ok(&self.states[slot.index])
    }

    /// The resident buffer of a parameter: that of its slot, or its fixed
    /// binding.
    pub fn parameter(&self, parameter: &Parameter) -> (r: Result<&Buffer, Error>)
        requires
            self.wf(),
        ensures
            match r {
                Ok(buffer) => resident_parameter(
                    self.plan(),
                    self.held(),
                    self.bindings(),
                    *parameter,
                ) == Ok::<BufferModel, Error>(buffer@),
                Err(e) => resident_parameter(
                    self.plan(),
                    self.held(),
                    self.bindings(),
                    *parameter,
                ) == Err::<BufferModel, Error>(e),
            },
    {
        if parameter.owner() != self.program.plan().owner() {
            return Err(err("parameter belongs to another schema"));
        }
        match parameter.storage() {
            ParameterStorage::State(slot) => self.state(&slot),
            ParameterStorage::Input(index) => {
                if index >= self.inputs.len() {
                    return Err(err("parameter is not part of this compiled program"));
                }
                assert(self.bindings()[index as int] == self.inputs@[index as int]@);
                match &self.inputs[index] {
                    InputBinding::Fixed(buffer) => Ok(buffer),
                    InputBinding::Dynamic(_) => Err(err("parameter has no fixed resident binding")),
                    InputBinding::Unused => Err(err("parameter was pruned from this program")),
                }
            },
        }
    }

    /// Replace the fixed inputs; inputs without one become arguments of a run,
    /// in their order. Errors leave the session as it was.
    pub fn bind_inputs(&mut self, bindings: Vec<(usize, Buffer)>) -> (r: Result<(), Error>)
        requires
            old(self).wf(),
        ensures
            final(self).wf(),
            final(self).plan() == old(self).plan(),
            final(self).device() == old(self).device(),
            final(self).held() == old(self).held(),
            match r {
                Ok(_) => {
                    &&& fixed_refusals(
                        old(self).plan(),
                        old(self).device(),
                        fixed_view(bindings@),
                        bindings@.len(),
                    ) is None
                    &&& arranged(old(self).plan(), fixed_view(bindings@), final(self).bindings())
                },
                Err(e) => {
                    &&& fixed_refusals(
                        old(self).plan(),
                        old(self).device(),
                        fixed_view(bindings@),
                        bindings@.len(),
                    ) == Some(e)
                    &&& *final(self) == *old(self)
                },
            },
    {
        let (inputs, count) = self.program.arrange(&bindings)?;
        self.inputs = inputs;
        self.dynamic_input_count = count;
        Ok(())
    }

    /// Replace the fixed inputs by parameters. Errors leave the session as it
    /// was.
    pub fn bind_parameters(&mut self, bindings: Vec<(Parameter, Buffer)>) -> (r: Result<(), Error>)
        requires
            old(self).wf(),
        ensures
            final(self).wf(),
            final(self).plan() == old(self).plan(),
            final(self).device() == old(self).device(),
            final(self).held() == old(self).held(),
            match parameter_binding_refusal(old(self).plan(), bindings@, bindings@.len()) {
                Some(e) => r == Err::<(), Error>(e) && *final(self) == *old(self),
                None => match r {
                    Ok(_) => {
                        &&& fixed_refusals(
                            old(self).plan(),
                            old(self).device(),
                            indexed(bindings@),
                            bindings@.len(),
                        ) is None
                        &&& arranged(old(self).plan(), indexed(bindings@), final(self).bindings())
                    },
                    Err(e) => {
                        &&& fixed_refusals(
                            old(self).plan(),
                            old(self).device(),
                            indexed(bindings@),
                            bindings@.len(),
                        ) == Some(e)
                        &&& *final(self) == *old(self)
                    },
                },
            },
    {
        let list: Vec<(usize, Buffer)> = input_parameter_bindings(&self.program, &bindings)?;
        assert(list@.len() == bindings@.len()) by {
            assert(fixed_view(list@).len() == indexed(bindings@).len());
        }
        self.bind_inputs(list)
    }

    /// Replace the whole state; the previous buffers come back with their slots.
    /// Errors leave the session as it was.
    pub fn replace_state(&mut self, replacement: Vec<(StateSlot, Buffer)>) -> (r: Result<
        Vec<(StateSlot, Buffer)>,
        Error,
    >)
        requires
            old(self).wf(),
        ensures
            final(self).wf(),
            final(self).plan() == old(self).plan(),
            final(self).device() == old(self).device(),
            final(self).bindings() == old(self).bindings(),
            match r {
                Ok(previous) => {
                    &&& binding_refusal(
                        old(self).plan(),
                        old(self).device(),
                        bindings_view(replacement@),
                    ) is None
                    &&& holds(final(self).held(), bindings_view(replacement@))
                    &&& bindings_view(previous@) == identified(
                        old(self).plan().owner,
                        old(self).held(),
                    )
                },
                Err(e) => {
                    &&& binding_refusal(
                        old(self).plan(),
                        old(self).device(),
                        bindings_view(replacement@),
                    ) == Some(e)
                    &&& *final(self) == *old(self)
                },
            },
    {
        let states: Vec<Buffer> = self.program.bind_states(&replacement)?;
        let previous: Vec<(StateSlot, Buffer)> = self.program.identify_states(&self.states);
        self.states = states;
        Ok(previous)
    }

    /// Give up the session and keep its state, in slot order.
    pub fn into_state(self) -> (r: Vec<(StateSlot, Buffer)>)
        requires
            self.wf(),
        ensures
            bindings_view(r@) == identified(self.plan().owner, self.held()),
    {
        self.program.identify_states(&self.states)
    }

    /// An independent session with the given state and the same program and
    /// fixed inputs.
    pub fn new_session(&self, initial: Vec<(StateSlot, Buffer)>) -> (r: Result<Session, Error>)
        requires
            self.wf(),
        ensures
            match r {
                Ok(session) => {
                    &&& binding_refusal(self.plan(), self.device(), bindings_view(initial@)) is None
                    &&& session.wf()
                    &&& session.plan() == self.plan()
                    &&& session.device() == self.device()
                    &&& session.bindings() == self.bindings()
                    &&& holds(session.held(), bindings_view(initial@))
                },
                Err(e) => binding_refusal(self.plan(), self.device(), bindings_view(initial@))
                    == Some(e),
            },
    {
        let states: Vec<Buffer> = self.program.bind_states(&initial)?;
        let mut inputs: Vec<InputBinding> = Vec::new();
        let mut i: usize = 0;
        while i < self.inputs.len()
            invariant
                i <= self.inputs@.len(),
                inputs@.len() == i,
                forall|k: int| 0 <= k < i ==> (#[trigger] inputs@[k])@ == self.inputs@[k]@,
            decreases self.inputs@.len() - i,
        {
            inputs.push(self.inputs[i].duplicate());
            i += 1;
        }
        assert(inputs_view(inputs@) =~= inputs_view(self.inputs@));
        Ok(
            Session {
                program: self.program.duplicate(),
                states,
                inputs,
                dynamic_input_count: self.dynamic_input_count,
            },
        )
    }

    /// Switch to another program along a complete state mapping, with fixed
    /// inputs of their own. Errors leave the session as it was.
    pub fn switch_program(
        &mut self,
        program: &StateProgram,
        mapping: &[(StateSlot, StateSlot)],
        fixed_inputs: Vec<(usize, Buffer)>,
    ) -> (r: Result<(), Error>)
        requires
            old(self).wf(),
            program.wf(),
        ensures
            final(self).wf(),
            match r {
                Ok(_) => {
                    &&& switch_refusal(
                        old(self).plan(),
                        program@,
                        program.device(),
                        old(self).held(),
                        mapping@,
                        fixed_view(fixed_inputs@),
                    ) is None
                    &&& final(self).plan() == program@
                    &&& final(self).device() == program.device()
                    &&& moved(old(self).held(), final(self).held(), mapping@)
                    &&& arranged(program@, fixed_view(fixed_inputs@), final(self).bindings())
                },
                Err(e) => {
                    &&& switch_refusal(
                        old(self).plan(),
                        program@,
                        program.device(),
                        old(self).held(),
                        mapping@,
                        fixed_view(fixed_inputs@),
                    ) == Some(e)
                    &&& *final(self) == *old(self)
                },
            },
    {
        let mut from: Vec<StateSlot> = Vec::new();
        let mut to: Vec<StateSlot> = Vec::new();
        let mut i: usize = 0;
        while i < mapping.len()
            invariant
                i <= mapping@.len(),
                from@.len() == i,
                to@.len() == i,
                forall|k: int| 0 <= k < i ==> #[trigger] from@[k] == mapping@[k].0,
                forall|k: int| 0 <= k < i ==> #[trigger] to@[k] == mapping@[k].1,
            decreases mapping@.len() - i,
        {
            from.push(mapping[i].0);
            to.push(mapping[i].1);
            i += 1;
        }
        assert(from@ =~= sources(mapping@));
        assert(to@ =~= destinations(mapping@));
        let source: Vec<(DType, Vec<i64>)> = self.program.state_layout(from.as_slice())?;
        let destination: Vec<(DType, Vec<i64>)> = program.state_layout(to.as_slice())?;
        if !same_layouts(&source, &destination) {
            return Err(err("program switch state dtype or shape mismatch"));
        }
        proof {
            accepted_slots_are_distinct(
                self.plan().owner,
                self.plan().states(),
                sources(mapping@),
                mapping@.len(),
            );
            accepted_slots_are_distinct(
                program@.owner,
                program@.states(),
                destinations(mapping@),
                mapping@.len(),
            );
            complete_layouts_hold_every_slot(
                program@.owner,
                program@.states(),
                destinations(mapping@),
            );
        }
        let states: Vec<Buffer> = self.moved_states(program, mapping)?;
        let (inputs, count) = program.arrange(&fixed_inputs)?;
        self.program = program.duplicate();
        self.states = states;
        self.inputs = inputs;
        self.dynamic_input_count = count;
        Ok(())
    }

    /// The state buffers in the order of another program.
    fn moved_states(&self, program: &StateProgram, mapping: &[(StateSlot, StateSlot)]) -> (r:
        Result<Vec<Buffer>, Error>)
        requires
            self.wf(),
            program.wf(),
            mapping@.len() == program@.states(),
            forall|k: int|
                0 <= k < mapping@.len() ==> (#[trigger] sources(mapping@)[k]).index
                    < self.plan().states(),
            forall|k: int|
                0 <= k < mapping@.len() ==> (#[trigger] destinations(mapping@)[k]).index
                    < program@.states(),
            forall|j: int, k: int|
                0 <= j < k < mapping@.len() ==> (#[trigger] destinations(mapping@)[j]).index != (
                #[trigger] destinations(mapping@)[k]).index,
            forall|i: int|
                0 <= i < program@.states() ==> #[trigger] listed(destinations(mapping@), i),
        ensures
            match r {
                Ok(states) => {
                    &&& moves_refusal(
                        program@,
                        program.device(),
                        self.held(),
                        mapping@,
                        mapping@.len(),
                    ) is None
                    &&& moved(self.held(), buffers_view(states@), mapping@)
                    &&& resident(program@, program.device(), buffers_view(states@))
                },
                Err(e) => moves_refusal(
                    program@,
                    program.device(),
                    self.held(),
                    mapping@,
                    mapping@.len(),
                ) == Some(e),
            },
    {
        let plan: &Plan = program.plan();
        let count: usize = plan.state_count();
        let ghost held = self.held();
        let ghost m = program@;
        let ghost client = program.device();
        let ghost targets = destinations(mapping@);
        let mut places: Vec<Option<usize>> = Vec::new();
        let mut i: usize = 0;
        while i < count
            invariant
                i <= count,
                places@.len() == i,
                forall|k: int| 0 <= k < i ==> (#[trigger] places@[k]) is None,
            decreases count - i,
        {
            places.push(None);
            i += 1;
        }
        let mut k: usize = 0;
        while k < mapping.len()
            invariant
                self.wf(),
                plan.wf(),
                plan@ == m,
                m == program@,
                client == program.device(),
                held == self.held(),
                targets == destinations(mapping@),
                count == m.states(),
                mapping@.len() == count,
                places@.len() == count,
                k <= count,
                forall|j: int|
                    0 <= j < mapping@.len() ==> (#[trigger] sources(mapping@)[j]).index
                        < self.plan().states(),
                forall|j: int| 0 <= j < count ==> (#[trigger] targets[j]).index < count,
                forall|a: int, b: int|
                    0 <= a < b < count ==> (#[trigger] targets[a]).index != (
                    #[trigger] targets[b]).index,
                moves_refusal(m, client, held, mapping@, k as nat) is None,
                forall|j: int|
                    0 <= j < k ==> places@[(#[trigger] targets[j]).index as int] == Some(
                        j as usize,
                    ),
            decreases count - k,
        {
            proof {
                assert(sources(mapping@)[k as int].index < self.plan().states());
                assert(targets[k as int].index < count);
                self.lemma_wf();
                assert(held[mapping@[k as int].0.index as int]
                    == self.states@[mapping@[k as int].0.index as int]@);
                if moves_refusal(m, client, held, mapping@, (k + 1) as nat) is Some {
                    lemma_moves_refused(
                        m,
                        client,
                        held,
                        mapping@,
                        (k + 1) as nat,
                        mapping@.len(),
                    );
                }
            }
            validate_buffer(
                program.client(),
                &self.states[mapping[k].0.index],
                plan.state_at(mapping[k].1.index),
            )?;
            places.set(mapping[k].1.index, Some(k));
            k += 1;
        }
        proof {
            lemma_moves_accepted(m, client, held, mapping@, mapping@.len());
        }
        let mut states: Vec<Buffer> = Vec::new();
        let mut j: usize = 0;
        while j < count
            invariant
                self.wf(),
                m == program@,
                held == self.held(),
                targets == destinations(mapping@),
                count == m.states(),
                mapping@.len() == count,
                places@.len() == count,
                j <= count,
                states@.len() == j,
                forall|i: int|
                    0 <= i < mapping@.len() ==> (#[trigger] sources(mapping@)[i]).index
                        < self.plan().states(),
                forall|i: int| 0 <= i < count ==> #[trigger] listed(targets, i),
                forall|i: int|
                    0 <= i < count ==> places@[(#[trigger] targets[i]).index as int] == Some(
                        i as usize,
                    ),
                forall|i: int|
                    0 <= i < j ==> moved_place(
                        held,
                        mapping@,
                        places@[i],
                        i,
                        (#[trigger] states@[i])@,
                    ),
            decreases count - j,
        {
            proof {
                assert(listed(targets, j as int));
                let p = choose|p: int|
                    0 <= p < targets.len() && (#[trigger] targets[p]).index == j;
                assert(places@[j as int] == Some(p as usize));
                assert(sources(mapping@)[p].index < self.plan().states());
                self.lemma_wf();
                assert(held[mapping@[p].0.index as int]
                    == self.states@[mapping@[p].0.index as int]@);
            }
            match places[j] {
                Some(p) => {
                    assert(targets[p as int].index == j);
                    states.push(self.states[mapping[p].0.index].duplicate());
                    assert(states@[j as int]@ == held[mapping@[p as int].0.index as int]);
                },
                None => {
                    assert(false);
                },
            }
            j += 1;
        }
        proof {
            let after = buffers_view(states@);
            assert forall|p: int| 0 <= p < mapping@.len() implies after[(
            #[trigger] mapping@[p]).1.index as int] == held[mapping@[p].0.index as int] by {
                let at = targets[p].index as int;
                assert(places@[at] == Some(p as usize));
                assert(moved_place(held, mapping@, places@[at], at, states@[at]@));
                assert(states@[at]@ == after[at]);
            }
            assert forall|i: int| 0 <= i < after.len() implies buffer_refusal(
                client,
                #[trigger] after[i],
                m.state(i),
            ) is None by {
                assert(moved_place(held, mapping@, places@[i], i, states@[i]@));
                let p = places@[i]->Some_0 as int;
                assert(states@[i]@ == after[i]);
                assert(mapping@[p].1 == targets[p]);
            }
        }
        Ok(states)
    }

    /// Switch to another program with fixed inputs given by its parameters.
    pub fn switch_program_parameters(
        &mut self,
        program: &StateProgram,
        mapping: &[(StateSlot, StateSlot)],
        bindings: Vec<(Parameter, Buffer)>,
    ) -> (r: Result<(), Error>)
        requires
            old(self).wf(),
            program.wf(),
        ensures
            final(self).wf(),
            match parameter_binding_refusal(program@, bindings@, bindings@.len()) {
                Some(e) => r == Err::<(), Error>(e) && *final(self) == *old(self),
                None => match r {
                    Ok(_) => {
                        &&& switch_refusal(
                            old(self).plan(),
                            program@,
                            program.device(),
                            old(self).held(),
                            mapping@,
                            indexed(bindings@),
                        ) is None
                        &&& final(self).plan() == program@
                        &&& final(self).device() == program.device()
                        &&& moved(old(self).held(), final(self).held(), mapping@)
                        &&& arranged(program@, indexed(bindings@), final(self).bindings())
                    },
                    Err(e) => {
                        &&& switch_refusal(
                            old(self).plan(),
                            program@,
                            program.device(),
                            old(self).held(),
                            mapping@,
                            indexed(bindings@),
                        ) == Some(e)
                        &&& *final(self) == *old(self)
                    },
                },
            },
    {
        let list: Vec<(usize, Buffer)> = input_parameter_bindings(program, &bindings)?;
        self.switch_program(program, mapping, list)
    }

    /// The buffers that a run hands to the executable, in order.
    pub fn arguments(&self, inputs: &[Buffer]) -> (r: Result<Vec<Buffer>, Error>)
        requires
            self.wf(),
        ensures
            match r {
                Ok(list) => {
                    &&& inputs@.len() == self.dynamic()
                    &&& buffers_view(list@) == run_arguments(
                        self.plan(),
                        self.bindings(),
                        self.held(),
                        buffers_view(inputs@),
                    )
                },
                Err(e) => inputs@.len() != self.dynamic() && e == invalid(
                    "session input count mismatch",
                ),
            },
    {
        if inputs.len() != self.dynamic_input_count {
            return Err(err("session input count mismatch"));
        }
        let arguments: &Vec<Argument> = self.program.plan().arguments();
        let ghost m = self.plan();
        let ghost expected = run_arguments(
            m,
            self.bindings(),
            self.held(),
            buffers_view(inputs@),
        );
        let mut list: Vec<Buffer> = Vec::new();
        let mut p: usize = 0;
        while p < arguments.len()
            invariant
                self.wf(),
                m == self.plan(),
                arguments@ == m.arguments,
                inputs@.len() == self.dynamic(),
                expected == run_arguments(
                    m,
                    self.bindings(),
                    self.held(),
                    buffers_view(inputs@),
                ),
                p <= arguments@.len(),
                list@.len() == p,
                forall|k: int| 0 <= k < p ==> (#[trigger] list@[k])@ == expected[k],
            decreases arguments@.len() - p,
        {
            proof {
                self.lemma_wf();
                self.program.lemma_lengths();
                assert(m.arguments[p as int] == arguments@[p as int]);
            }
            match arguments[p] {
                Argument::Input(i) => {
                    proof {
                        lemma_mapped(m, i as int);
                        assert(self.bindings()[i as int] == self.inputs@[i as int]@);
                        lemma_dynamic_grows(
                            self.bindings(),
                            i as nat,
                            self.bindings().len(),
                        );
                    }
                    match &self.inputs[i] {
                        InputBinding::Dynamic(index) => {
                            list.push(inputs[*index].duplicate());
                        },
                        InputBinding::Fixed(buffer) => {
                            list.push(buffer.duplicate());
                        },
                        InputBinding::Unused => {
                            assert(false);
                        },
                    }
                },
                Argument::State(i) => {
                    assert(self.held()[i as int] == self.states@[i as int]@);
                    list.push(self.states[i].duplicate());
                },
            }
            p += 1;
        }
        assert(buffers_view(list@) =~= expected);
        Ok(list)
    }

    /// Complete a run: once the whole outcome of the execution is accepted, the
    /// hidden outputs become the state and the visible ones come back. Nothing
    /// changes otherwise.
    pub fn run(&mut self, inputs: &[Buffer], outcome: Result<Vec<Buffer>, Error>) -> (r:
        Result<Vec<Buffer>, Error>)
        requires
            old(self).wf(),
        ensures
            final(self).wf(),
            final(self).plan() == old(self).plan(),
            final(self).device() == old(self).device(),
            final(self).bindings() == old(self).bindings(),
            match r {
                Ok(visible) => {
                    let outputs = outcome_view(outcome)->Ok_0;
                    let count = old(self).plan().visible_count as int;
                    &&& run_refusal(
                        old(self).plan(),
                        old(self).device(),
                        old(self).dynamic(),
                        inputs@.len(),
                        outcome_view(outcome),
                    ) is None
                    &&& buffers_view(visible@) == outputs.take(count)
                    &&& final(self).held() == outputs.skip(count)
                },
                Err(e) => {
                    &&& run_refusal(
                        old(self).plan(),
                        old(self).device(),
                        old(self).dynamic(),
                        inputs@.len(),
                        outcome_view(outcome),
                    ) == Some(e)
                    &&& *final(self) == *old(self)
                },
            },
    {
        if inputs.len() != self.dynamic_input_count {
            return Err(err("session input count mismatch"));
        }
        let outputs: Vec<Buffer> = match outcome {
            Ok(outputs) => outputs,
            Err(e) => {
                return Err(e);
            },
        };
        let plan: &Plan = self.program.plan();
        let types: &Vec<TensorType> = plan.types();
        let ghost m = self.plan();
        let ghost client = self.device();
        let ghost models = buffers_view(outputs@);
        assert(types@.len() == m.types.len()) by {
            assert(crate::interface::types_view(types@).len() == m.types.len());
        }
        if outputs.len() != types.len() {
            return Err(err("stateful execution output count mismatch"));
        }
        let mut i: usize = 0;
        while i < outputs.len()
            invariant
                *self == *old(self),
                self.wf(),
                m == self.plan(),
                client == self.device(),
                crate::interface::types_view(types@) == m.types,
                types@.len() == outputs@.len(),
                models == buffers_view(outputs@),
                outcome_view(outcome) == Ok::<Seq<BufferModel>, Error>(models),
                inputs@.len() == self.dynamic(),
                m.types.len() == models.len(),
                i <= outputs@.len(),
                outputs_refusal(m, client, models, i as nat) is None,
            decreases outputs@.len() - i,
        {
            proof {
                assert(models[i as int] == outputs@[i as int]@);
                assert(m.types[i as int] == types@[i as int]@);
                if outputs_refusal(m, client, models, (i + 1) as nat) is Some {
                    lemma_outputs_refused(m, client, models, (i + 1) as nat, models.len());
                }
            }
            match validate_buffer(self.program.client(), &outputs[i], &types[i]) {
                Ok(_) => {},
                Err(e) => {
                    return Err(e);
                },
            }
            i += 1;
        }
        let count: usize = plan.visible_count();
        let mut visible: Vec<Buffer> = Vec::new();
        let mut states: Vec<Buffer> = Vec::new();
        let mut k: usize = 0;
        proof {
            self.lemma_wf();
        }
        while k < outputs.len()
            invariant
                models == buffers_view(outputs@),
                count <= outputs@.len(),
                k <= outputs@.len(),
                visible@.len() == if k <= count {
                    k
                } else {
                    count
                },
                states@.len() == k - visible@.len(),
                forall|j: int| 0 <= j < visible@.len() ==> (#[trigger] visible@[j])@ == models[j],
                forall|j: int|
                    0 <= j < states@.len() ==> (#[trigger] states@[j])@ == models[count + j],
            decreases outputs@.len() - k,
        {
            assert(models[k as int] == outputs@[k as int]@);
            if k < count {
                visible.push(outputs[k].duplicate());
            } else {
                states.push(outputs[k].duplicate());
            }
            k += 1;
        }
        proof {
            assert(buffers_view(visible@) =~= models.take(count as int));
            assert(buffers_view(states@) =~= models.skip(count as int));
            lemma_outputs_accepted(m, client, models, models.len());
            let held = buffers_view(states@);
            assert forall|j: int| 0 <= j < held.len() implies buffer_refusal(
                client,
                #[trigger] held[j],
                m.state(j),
            ) is None by {
                assert(buffer_refusal(client, models[count + j], m.types[count + j]) is None);
            }
        }
        self.states = states;
        Ok(visible)
    }

    /// The state, in slot order, with copies of its buffers on another client.
    /// The sizes of the buffers are checked against a limit before any copy is
    /// used.
    pub fn copy_state_to_client_via_host(
        &self,
        sizes: &[usize],
        max_tensor_host_bytes: usize,
        copies: Result<Vec<Buffer>, Error>,
    ) -> (r: Result<Vec<(StateSlot, Buffer)>, Error>)
        requires
            self.wf(),
            sizes@.len() == self.held().len(),
            copies matches Ok(list) ==> list@.len() == self.held().len(),
        ensures
            copied_result(r) == copied_state(
                self.plan().owner,
                sizes@,
                max_tensor_host_bytes,
                usize::MAX,
                outcome_view(copies),
            ),
    {
        self.copy_state_to_client_via_host_with_limits(
            sizes,
            max_tensor_host_bytes,
            usize::MAX,
            copies,
        )
    }

    /// The state, in slot order, with copies of its buffers on another client.
    /// The sizes of the buffers are checked against both limits before any copy
    /// is used.
    pub fn copy_state_to_client_via_host_with_limits(
        &self,
        sizes: &[usize],
        max_tensor_host_bytes: usize,
        max_total_host_bytes: usize,
        copies: Result<Vec<Buffer>, Error>,
    ) -> (r: Result<Vec<(StateSlot, Buffer)>, Error>)
        requires
            self.wf(),
            sizes@.len() == self.held().len(),
            copies matches Ok(list) ==> list@.len() == self.held().len(),
        ensures
            copied_result(r) == copied_state(
                self.plan().owner,
                sizes@,
                max_tensor_host_bytes,
                max_total_host_bytes,
                outcome_view(copies),
            ),
    {
        let _total: usize = check_host_payloads(
            sizes,
            max_tensor_host_bytes,
            max_total_host_bytes,
        )?;
        match copies {
            Ok(list) => Ok(self.program.identify_states(&list)),
            Err(e) => Err(e),
        }
    }
}

/// State copied to another client, or why it is not.
pub open spec fn copied_state(
    owner: u64,
    sizes: Seq<usize>,
    max_tensor: usize,
    max_total: usize,
    copies: Result<Seq<BufferModel>, Error>,
) -> Result<Seq<(StateSlot, BufferModel)>, Error> {
    match payload_refusal(sizes, max_tensor, max_total, sizes.len()) {
        Some(e) => Err(e),
        None => match copies {
            Ok(list) => Ok(identified(owner, list)),
            Err(e) => Err(e),
        },
    }
}

/// The content of a result that holds state.
pub open spec fn copied_result(r: Result<Vec<(StateSlot, Buffer)>, Error>) -> Result<
    Seq<(StateSlot, BufferModel)>,
    Error,
> {
    match r {
        Ok(list) => Ok(bindings_view(list@)),
        Err(e) => Err(e),
    }
}

/// The resident buffer of a parameter, or why it has none.
pub open spec fn resident_parameter(
    m: PlanModel,
    states: Seq<BufferModel>,
    bindings: Seq<BindingModel>,
    parameter: Parameter,
) -> Result<BufferModel, Error> {
    if parameter.schema() != m.owner {
        Err(invalid("parameter belongs to another schema"))
    } else {
        match parameter.place() {
            ParameterStorage::State(slot) => match slot_refusal(m.owner, m.states(), slot) {
                Some(e) => Err(e),
                None => Ok(states[slot.index as int]),
            },
            ParameterStorage::Input(index) => if index >= m.input_count {
                Err(invalid("parameter is not part of this compiled program"))
            } else {
                match bindings[index as int] {
                    BindingModel::Fixed(buffer) => Ok(buffer),
                    BindingModel::Dynamic(_) => Err(
                        invalid("parameter has no fixed resident binding"),
                    ),
                    BindingModel::Unused => Err(invalid("parameter was pruned from this program")),
                }
            },
        }
    }
}

/// Whether two layouts are the same.
fn same_layouts(a: &Vec<(DType, Vec<i64>)>, b: &Vec<(DType, Vec<i64>)>) -> (r: bool)
    ensures
        r == (layout_view(a@) == layout_view(b@)),
{
    if a.len() != b.len() {
        assert(layout_view(a@).len() != layout_view(b@).len());
        return false;
    }
    let mut i: usize = 0;
    while i < a.len()
        invariant
            a@.len() == b@.len(),
            i <= a@.len(),
            forall|k: int| 0 <= k < i ==> #[trigger] layout_view(a@)[k] == layout_view(b@)[k],
        decreases a@.len() - i,
    {
        if a[i].0 != b[i].0 || !same_dims(a[i].1.as_slice(), b[i].1.as_slice()) {
            assert(layout_view(a@)[i as int] != layout_view(b@)[i as int]);
            return false;
        }
        i += 1;
    }
    assert(layout_view(a@) =~= layout_view(b@));
    true
}

} // verus!
