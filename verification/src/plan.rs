//! Prepared state transitions: argument mappings, state layouts and the
//! matching of state between programs.
use crate::dtype::DType;
use crate::error::{err, invalid, Error};
use crate::graph::{type_of, values_of, Tensor, TensorType, TypeModel};
use crate::image::same_text;
use crate::interface::{
    all_local, ids_of, kept_numbers_increase, kept_positions, numbers_at,
    preserved_parameters_keep_their_numbers, types_at, types_view, Interface,
};
use crate::listing::{listed_text, listing};
use crate::op::copied;
use crate::shape::{elements, same_dims, volume};
use crate::state::{
    input_total, numbered, slot_refusal, validate_slot, Argument, Parameter, ParameterStorage,
    StateGraph, StateSlot,
};
use vstd::prelude::*;

verus! {

/// Borrowed static description of one ordered tensor result.
#[derive(Clone, Copy, Debug)]
pub struct OutputSpec<'a> {
    pub shape: &'a [i64],
    pub dtype: DType,
}

/// Borrowed static description of one ordered runtime input.
#[derive(Clone, Copy, Debug)]
pub struct InputSpec<'a> {
    pub shape: &'a [i64],
    pub dtype: DType,
}

/// A copy of a list of types.
pub(crate) fn duplicate_types(types: &Vec<TensorType>) -> (r: Vec<TensorType>)
    ensures
        types_view(r@) == types_view(types@),
{
    let mut list: Vec<TensorType> = Vec::new();
    let mut i: usize = 0;
    while i < types.len()
        invariant
            i <= types@.len(),
            list@.len() == i,
            forall|k: int| 0 <= k < i ==> (#[trigger] list@[k])@ == types@[k]@,
        decreases types@.len() - i,
    {
        list.push(types[i].duplicate());
        i += 1;
    }
    assert(types_view(list@) =~= types_view(types@));
    list
}

/// Where each visible input stands among the arguments, if it was kept.
pub open spec fn mapped(arguments: Seq<Argument>, inputs: nat) -> Seq<Option<usize>> {
    Seq::new(
        inputs,
        |i: int|
            if exists|p: int|
                0 <= p < arguments.len() && #[trigger] arguments[p] == Argument::Input(i as usize) {
                Some(
                    (choose|p: int|
                        0 <= p < arguments.len() && #[trigger] arguments[p] == Argument::Input(
                            i as usize,
                        )) as usize,
                )
            } else {
                None
            },
    )
}

/// Whether arguments stand for different inputs of a schema, or for its state.
pub open spec fn distinct_arguments(arguments: Seq<Argument>, inputs: nat, states: nat) -> bool {
    &&& forall|p: int|
        0 <= p < arguments.len() ==> match #[trigger] arguments[p] {
            Argument::Input(i) => i < inputs,
            Argument::State(i) => i < states,
        }
    &&& forall|p: int, q: int|
        0 <= p < q < arguments.len() && #[trigger] arguments[p] is Input ==> arguments[p]
            != #[trigger] arguments[q]
}

/// The positions, among the first `count` arguments, of visible inputs.
pub open spec fn input_positions(arguments: Seq<Argument>, count: nat) -> Seq<usize>
    decreases count,
{
    if count == 0 {
        Seq::empty()
    } else {
        let rest = input_positions(arguments, (count - 1) as nat);
        if arguments[count - 1] is Input {
            rest.push((count - 1) as usize)
        } else {
            rest
        }
    }
}

/// The argument positions of the visible inputs, in registration order.
pub fn input_parameters(arguments: &[Argument]) -> (r: Vec<usize>)
    ensures
        r@ == input_positions(arguments@, arguments@.len()),
{
    let mut parameters: Vec<usize> = Vec::new();
    let mut i: usize = 0;
    while i < arguments.len()
        invariant
            i <= arguments@.len(),
            parameters@ == input_positions(arguments@, i as nat),
        decreases arguments@.len() - i,
    {
        match arguments[i] {
            Argument::Input(_) => {
                parameters.push(i);
            },
            Argument::State(_) => {},
        }
        i += 1;
    }
    parameters
}

/// Where arguments are numbered in order, the visible input of a number stands
/// at the position listed under that number.
pub proof fn input_positions_invert_the_numbering(
    arguments: Seq<Argument>,
    inputs: nat,
    states: nat,
    count: nat,
)
    requires
        numbered(arguments, inputs, states),
        count <= arguments.len() <= usize::MAX,
    ensures
        input_positions(arguments, count).len() == input_total(arguments, count),
        forall|i: int|
            0 <= i < input_positions(arguments, count).len() ==> {
                let p = #[trigger] input_positions(arguments, count)[i];
                p < count && arguments[p as int] == Argument::Input(i as usize)
            },
    decreases count,
{
    if count > 0 {
        input_positions_invert_the_numbering(arguments, inputs, states, (count - 1) as nat);
        let rest = input_positions(arguments, (count - 1) as nat);
        let all = input_positions(arguments, count);
        assert forall|i: int| 0 <= i < all.len() implies {
            let p = #[trigger] all[i];
            p < count && arguments[p as int] == Argument::Input(i as usize)
        } by {
            if i < rest.len() {
                assert(all[i] == rest[i]);
            } else {
                assert(arguments[count - 1] is Input);
            }
        }
    }
}

/// Numbered arguments stand for different inputs, or for state.
proof fn lemma_numbered_distinct(arguments: Seq<Argument>, inputs: nat, states: nat)
    requires
        numbered(arguments, inputs, states),
        arguments.len() <= usize::MAX,
    ensures
        distinct_arguments(arguments, inputs, states),
{
    assert forall|p: int| 0 <= p < arguments.len() implies match #[trigger] arguments[p] {
        Argument::Input(i) => i < inputs,
        Argument::State(i) => i < states,
    } by {
        lemma_totals_grow(arguments, p as nat, arguments.len());
    }
    assert forall|p: int, q: int|
        0 <= p < q < arguments.len() && #[trigger] arguments[p] is Input implies arguments[p]
        != #[trigger] arguments[q] by {
        lemma_totals_grow(arguments, p as nat, q as nat);
    }
}

/// More arguments hold no fewer inputs, and no fewer slots.
proof fn lemma_totals_grow(arguments: Seq<Argument>, low: nat, high: nat)
    requires
        low <= high <= arguments.len(),
    ensures
        input_total(arguments, low) <= input_total(arguments, high),
        low - input_total(arguments, low) <= high - input_total(arguments, high),
        low < high && arguments[low as int] is Input ==> input_total(arguments, low) < input_total(
            arguments,
            high,
        ),
        low < high && arguments[low as int] is State ==> low - input_total(arguments, low) < high
            - input_total(arguments, high),
    decreases high - low,
{
    if low < high {
        lemma_totals_grow(arguments, low + 1, high);
    }
}

/// Fill in where each visible input stands among the arguments.
fn input_map(arguments: &Vec<Argument>, inputs: usize) -> (r: Vec<Option<usize>>)
    requires
        forall|p: int|
            0 <= p < arguments@.len() ==> (#[trigger] arguments@[p] matches Argument::Input(i)
                ==> i < inputs),
        forall|p: int, q: int|
            0 <= p < q < arguments@.len() && #[trigger] arguments@[p] is Input ==> arguments@[p]
                != #[trigger] arguments@[q],
    ensures
        r@ == mapped(arguments@, inputs as nat),
{
    let mut map: Vec<Option<usize>> = Vec::new();
    let mut i: usize = 0;
    while i < inputs
        invariant
            i <= inputs,
            map@.len() == i,
            forall|k: int| 0 <= k < i ==> (#[trigger] map@[k]) is None,
        decreases inputs - i,
    {
        map.push(None);
        i += 1;
    }
    let mut p: usize = 0;
    while p < arguments.len()
        invariant
            p <= arguments@.len(),
            map@.len() == inputs,
            forall|q: int|
                0 <= q < arguments@.len() ==> (#[trigger] arguments@[q] matches Argument::Input(j)
                    ==> j < inputs),
            forall|a: int, b: int|
                0 <= a < b < arguments@.len() && #[trigger] arguments@[a] is Input
                    ==> arguments@[a] != #[trigger] arguments@[b],
            forall|q: int|
                0 <= q < p ==> (#[trigger] arguments@[q] matches Argument::Input(j)
                    ==> map@[j as int] == Some(q as usize)),
            forall|k: int|
                0 <= k < inputs ==> ((#[trigger] map@[k]) matches Some(q) ==> q < p
                    && arguments@[q as int] == Argument::Input(k as usize)),
        decreases arguments@.len() - p,
    {
        match arguments[p] {
            Argument::Input(index) => {
                assert(arguments@[p as int] == Argument::Input(index));
                map.set(index, Some(p));
            },
            Argument::State(_) => {},
        }
        p += 1;
    }
    proof {
        let expected = mapped(arguments@, inputs as nat);
        assert forall|k: int| 0 <= k < inputs implies map@[k] == #[trigger] expected[k] by {
            if exists|q: int|
                0 <= q < arguments@.len() && #[trigger] arguments@[q] == Argument::Input(
                    k as usize,
                ) {
                let q = choose|q: int|
                    0 <= q < arguments@.len() && #[trigger] arguments@[q] == Argument::Input(
                        k as usize,
                    );
                assert(arguments@[q] is Input);
            }
        }
        assert(map@ =~= expected);
    }
    map
}

/// The mathematical content of a plan.
pub ghost struct PlanModel {
    pub owner: u64,
    pub arguments: Seq<Argument>,
    pub input_count: nat,
    pub visible_count: nat,
    pub inputs: Seq<TypeModel>,
    pub types: Seq<TypeModel>,
}

impl PlanModel {
    /// The number of state slots.
    pub open spec fn states(self) -> nat {
        (self.types.len() - self.visible_count) as nat
    }

    /// The type of a state slot.
    pub open spec fn state(self, index: int) -> TypeModel {
        self.types[self.visible_count + index]
    }

    /// Where each visible input stands among the arguments, if it was kept.
    pub open spec fn map(self) -> Seq<Option<usize>> {
        mapped(self.arguments, self.input_count)
    }

    /// The arguments stand for different inputs, or for state, and each has a
    /// type.
    pub open spec fn wf(self) -> bool {
        &&& self.visible_count <= self.types.len()
        &&& self.arguments.len() <= self.inputs.len()
        &&& distinct_arguments(self.arguments, self.input_count, self.states())
    }
}

/// A kept input stands where the map says.
pub proof fn lemma_mapped(m: PlanModel, i: int)
    requires
        m.wf(),
        0 <= i < m.input_count,
        m.arguments.len() <= usize::MAX,
        m.input_count <= usize::MAX,
    ensures
        m.map()[i] matches Some(p) ==> p < m.arguments.len() && m.arguments[p as int]
            == Argument::Input(i as usize),
        m.map()[i] is None ==> forall|p: int|
            0 <= p < m.arguments.len() ==> #[trigger] m.arguments[p] != Argument::Input(
                i as usize,
            ),
{
}

/// What holds of one program of a state schema: which arguments it takes, in
/// which order, and which types it has.
pub struct Plan {
    owner: u64,
    arguments: Vec<Argument>,
    input_parameters: Vec<Option<usize>>,
    input_count: usize,
    visible_count: usize,
    inputs: Vec<TensorType>,
    types: Vec<TensorType>,
}

impl View for Plan {
    type V = PlanModel;

    closed spec fn view(&self) -> PlanModel {
        PlanModel {
            owner: self.owner,
            arguments: self.arguments@,
            input_count: self.input_count as nat,
            visible_count: self.visible_count as nat,
            inputs: types_view(self.inputs@),
            types: types_view(self.types@),
        }
    }
}

/// The refusal of the first `count` slots as a complete, unique set.
pub open spec fn layout_refusal(
    owner: u64,
    states: nat,
    slots: Seq<StateSlot>,
    count: nat,
) -> Option<Error>
    decreases count,
{
    if count == 0 {
        None
    } else {
        match layout_refusal(owner, states, slots, (count - 1) as nat) {
            Some(e) => Some(e),
            None => match slot_refusal(owner, states, slots[count - 1]) {
                Some(e) => Some(e),
                None => if exists|k: int|
                    0 <= k < count - 1 && (#[trigger] slots[k]).index == slots[count - 1].index {
                    Some(invalid("duplicate state layout slot"))
                } else {
                    None
                },
            },
        }
    }
}

/// Why a list of slots is not the complete, unique set of a schema.
pub open spec fn incomplete(owner: u64, states: nat, slots: Seq<StateSlot>) -> Option<Error> {
    if slots.len() != states {
        Some(invalid("state layout requires every slot exactly once"))
    } else {
        layout_refusal(owner, states, slots, slots.len())
    }
}

/// A refusal found early is the refusal in the end.
proof fn lemma_layout_refused(
    owner: u64,
    states: nat,
    slots: Seq<StateSlot>,
    early: nat,
    count: nat,
)
    requires
        early <= count,
        layout_refusal(owner, states, slots, early) is Some,
    ensures
        layout_refusal(owner, states, slots, count) == layout_refusal(owner, states, slots, early),
    decreases count - early,
{
    if early < count {
        lemma_layout_refused(owner, states, slots, early + 1, count);
    }
}

/// What holds of slots that are not refused.
pub proof fn accepted_slots_are_distinct(
    owner: u64,
    states: nat,
    slots: Seq<StateSlot>,
    count: nat,
)
    requires
        layout_refusal(owner, states, slots, count) is None,
        count <= slots.len(),
    ensures
        forall|k: int|
            0 <= k < count ==> (#[trigger] slots[k]).owner == owner && slots[k].index < states,
        forall|j: int, k: int|
            0 <= j < k < count ==> (#[trigger] slots[j]).index != (#[trigger] slots[k]).index,
    decreases count,
{
    if count > 0 {
        accepted_slots_are_distinct(owner, states, slots, (count - 1) as nat);
        assert forall|j: int, k: int| 0 <= j < k < count implies (#[trigger] slots[j]).index != (
        #[trigger] slots[k]).index by {
            if k == count - 1 && slots[j].index == slots[k].index {
                assert(0 <= j < count - 1 && slots[j].index == slots[count - 1].index);
            }
        }
    }
}

/// As many different numbers below a bound as the bound allows are all of them.
pub proof fn distinct_indices_cover(indices: Seq<int>, bound: nat)
    requires
        indices.len() == bound,
        forall|k: int| 0 <= k < indices.len() ==> 0 <= #[trigger] indices[k] < bound,
        forall|j: int, k: int|
            0 <= j < k < indices.len() ==> #[trigger] indices[j] != #[trigger] indices[k],
    ensures
        forall|i: int| 0 <= i < bound ==> #[trigger] indices.contains(i),
{
    assert(indices.no_duplicates());
    indices.unique_seq_to_set();
    let all = vstd::set_lib::set_int_range(0, bound as int);
    vstd::set_lib::lemma_int_range(0, bound as int);
    assert(indices.to_set().subset_of(all)) by {
        assert forall|i: int| indices.to_set().contains(i) implies all.contains(i) by {
            let k = choose|k: int| 0 <= k < indices.len() && indices[k] == i;
        }
    }
    vstd::set_lib::lemma_subset_equality(indices.to_set(), all);
    assert forall|i: int| 0 <= i < bound implies #[trigger] indices.contains(i) by {
        assert(all.contains(i));
        assert(indices.to_set().contains(i));
    }
}

/// Whether a slot number stands in a list.
pub open spec fn listed(slots: Seq<StateSlot>, index: int) -> bool {
    exists|k: int| 0 <= k < slots.len() && (#[trigger] slots[k]).index == index
}

/// A complete set of slots holds every slot.
pub proof fn complete_layouts_hold_every_slot(owner: u64, states: nat, slots: Seq<StateSlot>)
    requires
        incomplete(owner, states, slots) is None,
    ensures
        forall|i: int| 0 <= i < states ==> #[trigger] listed(slots, i),
{
    accepted_slots_are_distinct(owner, states, slots, slots.len());
    let indices = Seq::new(slots.len(), |k: int| slots[k].index as int);
    assert forall|j: int, k: int| 0 <= j < k < indices.len() implies #[trigger] indices[j]
        != #[trigger] indices[k] by {
        assert(slots[j].index != slots[k].index);
    }
    distinct_indices_cover(indices, states);
    assert forall|i: int| 0 <= i < states implies #[trigger] listed(slots, i) by {
        assert(indices.contains(i));
        let k = choose|k: int| 0 <= k < indices.len() && indices[k] == i;
        assert(slots[k].index == i);
    }
}

/// The types of a layout.
pub open spec fn layout_view(layout: Seq<(DType, Vec<i64>)>) -> Seq<TypeModel> {
    Seq::new(layout.len(), |k: int| TypeModel { dims: layout[k].1@, dtype: layout[k].0 })
}

/// The types of slots, in their order.
pub open spec fn layout_of(m: PlanModel, slots: Seq<StateSlot>) -> Seq<TypeModel> {
    Seq::new(slots.len(), |k: int| m.state(slots[k].index as int))
}

/// Why the type of a parameter cannot be told.
pub open spec fn parameter_refusal(m: PlanModel, parameter: Parameter) -> Option<Error> {
    if parameter.schema() != m.owner {
        Some(invalid("parameter belongs to another schema"))
    } else {
        match parameter.place() {
            ParameterStorage::State(slot) => slot_refusal(m.owner, m.states(), slot),
            ParameterStorage::Input(index) => if index >= m.input_count || m.map()[index as int]
                is None {
                Some(invalid("parameter is absent or pruned from this program"))
            } else {
                None
            },
        }
    }
}

/// The type of the runtime buffer of a parameter.
pub open spec fn parameter_type_of(m: PlanModel, parameter: Parameter) -> TypeModel {
    match parameter.place() {
        ParameterStorage::State(slot) => m.state(slot.index as int),
        ParameterStorage::Input(index) => m.inputs[m.map()[index as int]->Some_0 as int],
    }
}

/// The numbers, below `count`, of the inputs that were kept.
pub open spec fn kept_inputs(map: Seq<Option<usize>>, count: nat) -> Seq<usize>
    decreases count,
{
    if count == 0 {
        Seq::empty()
    } else {
        let rest = kept_inputs(map, (count - 1) as nat);
        if map[count - 1] is Some {
            rest.push((count - 1) as usize)
        } else {
            rest
        }
    }
}

impl Plan {
    /// The plan maps its inputs, and is a plan.
    pub closed spec fn wf(self) -> bool {
        &&& self@.wf()
        &&& self.input_parameters@ == self@.map()
    }

    /// The lists of a plan have lengths that fit in memory.
    pub proof fn lemma_lengths(self)
        requires
            self.wf(),
        ensures
            self@.wf(),
            self@.arguments.len() <= usize::MAX,
            self@.input_count <= usize::MAX,
            self@.types.len() <= usize::MAX,
            self@.inputs.len() <= usize::MAX,
    {
        assert(self.arguments.len() <= usize::MAX);
        assert(self.types.len() <= usize::MAX);
        assert(self.inputs.len() <= usize::MAX);
    }

    /// A copy of the plan.
    pub fn duplicate(&self) -> (r: Plan)
        requires
            self.wf(),
        ensures
            r.wf(),
            r@ == self@,
    {
        Plan {
            owner: self.owner,
            arguments: copied(&self.arguments),
            input_parameters: copied(&self.input_parameters),
            input_count: self.input_count,
            visible_count: self.visible_count,
            inputs: duplicate_types(&self.inputs),
            types: duplicate_types(&self.types),
        }
    }

    /// The schema of the plan.
    pub fn owner(&self) -> (r: u64)
        ensures
            r == self@.owner,
    {
        self.owner
    }

    /// The number of state slots.
    pub fn state_count(&self) -> (r: usize)
        requires
            self.wf(),
        ensures
            r == self@.states(),
    {
        self.types.len() - self.visible_count
    }

    /// The number of declared visible inputs.
    pub fn input_count(&self) -> (r: usize)
        ensures
            r == self@.input_count,
    {
        self.input_count
    }

    /// The number of visible outputs.
    pub fn visible_count(&self) -> (r: usize)
        ensures
            r == self@.visible_count,
    {
        self.visible_count
    }

    /// The runtime arguments, in order.
    pub fn arguments(&self) -> (r: &Vec<Argument>)
        ensures
            r@ == self@.arguments,
    {
        &self.arguments
    }

    /// The types of all outputs, visible ones first.
    pub fn types(&self) -> (r: &Vec<TensorType>)
        ensures
            types_view(r@) == self@.types,
    {
        &self.types
    }

    /// Where a visible input stands among the arguments, if it was kept.
    pub fn position(&self, index: usize) -> (r: Option<usize>)
        requires
            self.wf(),
            index < self@.input_count,
        ensures
            r == self@.map()[index as int],
    {
        self.input_parameters[index]
    }

    /// The type of an argument.
    pub fn input_type(&self, position: usize) -> (r: &TensorType)
        requires
            position < self@.inputs.len(),
        ensures
            r@ == self@.inputs[position as int],
    {
        assert(types_view(self.inputs@)[position as int] == self.inputs@[position as int]@);
        &self.inputs[position]
    }

    /// The type of a state slot.
    pub fn state_at(&self, index: usize) -> (r: &TensorType)
        requires
            self.wf(),
            index < self@.states(),
        ensures
            r@ == self@.state(index as int),
    {
        proof {
            self.lemma_lengths();
        }
        let at: usize = self.visible_count + index;
        assert(types_view(self.types@)[at as int] == self.types@[at as int]@);
        &self.types[at]
    }

    /// A visible result; hidden state is left out.
    pub fn output_spec(&self, index: usize) -> (r: Option<OutputSpec<'_>>)
        requires
            self.wf(),
        ensures
            match r {
                None => index >= self@.visible_count,
                Some(spec) => index < self@.visible_count && spec.shape@
                    == self@.types[index as int].dims && spec.dtype
                    == self@.types[index as int].dtype,
            },
    {
        if index >= self.visible_count {
            return None;
        }
        assert(types_view(self.types@)[index as int] == self.types@[index as int]@);
        let ty: &TensorType = &self.types[index];
        Some(OutputSpec { shape: ty.dims.as_slice(), dtype: ty.dtype })
    }

    /// The numbers of the inputs that the plan takes, in runtime order.
    pub fn input_indices(&self) -> (r: Vec<usize>)
        requires
            self.wf(),
        ensures
            r@ == kept_inputs(self@.map(), self@.input_count),
    {
        let mut indices: Vec<usize> = Vec::new();
        let mut i: usize = 0;
        while i < self.input_count
            invariant
                self.wf(),
                i <= self.input_count,
                indices@ == kept_inputs(self@.map(), i as nat),
            decreases self.input_count - i,
        {
            match self.input_parameters[i] {
                Some(_) => {
                    indices.push(i);
                },
                None => {},
            }
            i += 1;
        }
        indices
    }

    /// The type of a state slot.
    pub fn state_type(&self, slot: &StateSlot) -> (r: Result<(DType, Vec<i64>), Error>)
        requires
            self.wf(),
        ensures
            match r {
                Ok((dtype, dims)) => {
                    &&& slot_refusal(self@.owner, self@.states(), *slot) is None
                    &&& dtype == self@.state(slot.index as int).dtype
                    &&& dims@ == self@.state(slot.index as int).dims
                },
                Err(e) => slot_refusal(self@.owner, self@.states(), *slot) == Some(e),
            },
    {
        validate_slot(self.owner, self.state_count(), slot)?;
        let ty: &TensorType = self.state_at(slot.index);
        Ok((ty.dtype, copied(&ty.dims)))
    }

    /// The type of the runtime buffer of a parameter.
    pub fn parameter_type(&self, parameter: &Parameter) -> (r: Result<(DType, Vec<i64>), Error>)
        requires
            self.wf(),
        ensures
            match r {
                Ok((dtype, dims)) => {
                    &&& parameter_refusal(self@, *parameter) is None
                    &&& dtype == parameter_type_of(self@, *parameter).dtype
                    &&& dims@ == parameter_type_of(self@, *parameter).dims
                },
                Err(e) => parameter_refusal(self@, *parameter) == Some(e),
            },
    {
        if parameter.owner() != self.owner {
            return Err(err("parameter belongs to another schema"));
        }
        match parameter.storage() {
            ParameterStorage::State(slot) => self.state_type(&slot),
            ParameterStorage::Input(index) => {
                if index >= self.input_count {
                    return Err(err("parameter is absent or pruned from this program"));
                }
                match self.input_parameters[index] {
                    None => Err(err("parameter is absent or pruned from this program")),
                    Some(position) => {
                        proof {
                            self.lemma_lengths();
                            lemma_mapped(self@, index as int);
                        }
                        let ty: &TensorType = self.input_type(position);
                        Ok((ty.dtype, copied(&ty.dims)))
                    },
                }
            },
        }
    }

    /// The types of a complete, unique set of slots, in the order given.
    pub fn state_layout(&self, slots: &[StateSlot]) -> (r: Result<Vec<(DType, Vec<i64>)>, Error>)
        requires
            self.wf(),
        ensures
            match r {
                Ok(layout) => {
                    &&& incomplete(self@.owner, self@.states(), slots@) is None
                    &&& layout_view(layout@) == layout_of(self@, slots@)
                },
                Err(e) => incomplete(self@.owner, self@.states(), slots@) == Some(e),
            },
    {
        let count: usize = self.state_count();
        if slots.len() != count {
            return Err(err("state layout requires every slot exactly once"));
        }
        let mut layout: Vec<(DType, Vec<i64>)> = Vec::new();
        let mut i: usize = 0;
        while i < slots.len()
            invariant
                self.wf(),
                count == self@.states(),
                slots@.len() == count,
                i <= slots@.len(),
                layout_refusal(self@.owner, self@.states(), slots@, i as nat) is None,
                layout@.len() == i,
                forall|k: int|
                    0 <= k < i ==> (#[trigger] layout@[k]).0 == self@.state(
                        slots@[k].index as int,
                    ).dtype && layout@[k].1@ == self@.state(slots@[k].index as int).dims,
            decreases slots@.len() - i,
        {
            match validate_slot(self.owner, count, &slots[i]) {
                Ok(_) => {},
                Err(e) => {
                    proof {
                        lemma_layout_refused(
                            self@.owner,
                            self@.states(),
                            slots@,
                            (i + 1) as nat,
                            slots@.len(),
                        );
                    }
                    return Err(e);
                },
            }
            let mut k: usize = 0;
            while k < i
                invariant
                    self.wf(),
                    count == self@.states(),
                    slots@.len() == count,
                    i < slots@.len(),
                    k <= i,
                    layout_refusal(self@.owner, self@.states(), slots@, i as nat) is None,
                    slot_refusal(self@.owner, self@.states(), slots@[i as int]) is None,
                    forall|j: int|
                        0 <= j < k ==> (#[trigger] slots@[j]).index != slots@[i as int].index,
                decreases i - k,
            {
                if slots[k].index == slots[i].index {
                    proof {
                        assert(slots@[k as int].index == slots@[i as int].index);
                        lemma_layout_refused(
                            self@.owner,
                            self@.states(),
                            slots@,
                            (i + 1) as nat,
                            slots@.len(),
                        );
                    }
                    return Err(err("duplicate state layout slot"));
                }
                k += 1;
            }
            let ty: &TensorType = self.state_at(slots[i].index);
            layout.push((ty.dtype, copied(&ty.dims)));
            i += 1;
        }
        assert(layout_view(layout@) =~= layout_of(self@, slots@));
        Ok(layout)
    }
}

/// What a prepared transition is made of: the arguments that it keeps, their
/// types, and the types of its visible outputs and of all state.
pub open spec fn prepared(
    state: StateGraph,
    outputs: Seq<Tensor>,
    pruned: bool,
    m: PlanModel,
) -> bool {
    let all = outputs + state.versions();
    let graph = state.tensors();
    let kept = kept_positions(
        graph.model(),
        graph.wires(),
        ids_of(all),
        !pruned,
        graph.model().len(),
    );
    let numbers = numbers_at(graph.model(), kept);
    &&& m.owner == state.schema()
    &&& m.input_count == state.inputs()
    &&& m.visible_count == outputs.len()
    &&& m.types == Seq::new(all.len(), |k: int| type_of(all[k]@))
    &&& m.inputs == types_at(graph.model(), kept)
    &&& if pruned {
        m.arguments == Seq::new(numbers.len(), |k: int| state.abi()[numbers[k] as int])
    } else {
        m.arguments == state.abi()
    }
}

impl StateGraph {
    /// Copies of the visible outputs, followed by the current versions.
    fn outputs_with_state(&self, outputs: &[Tensor]) -> (r: Vec<Tensor>)
        requires
            self.wf(),
            self.tensors().admits_all(outputs@),
        ensures
            self.tensors().admits_all(r@),
            values_of(r@) == values_of(outputs@ + self.versions()),
            ids_of(r@) == ids_of(outputs@ + self.versions()),
    {
        let mut all: Vec<Tensor> = Vec::new();
        let ghost whole = outputs@ + self.versions();
        let mut i: usize = 0;
        while i < outputs.len()
            invariant
                self.wf(),
                self.tensors().admits_all(outputs@),
                whole == outputs@ + self.versions(),
                i <= outputs@.len(),
                all@.len() == i,
                self.tensors().admits_all(all@),
                forall|k: int|
                    0 <= k < i ==> (#[trigger] all@[k])@ == whole[k]@ && all@[k].id()
                        == whole[k].id(),
            decreases outputs@.len() - i,
        {
            assert(self.tensors().admits(outputs@[i as int]));
            all.push(outputs[i].copy());
            i += 1;
        }
        let mut j: usize = 0;
        while j < self.slot_count()
            invariant
                self.wf(),
                whole == outputs@ + self.versions(),
                j <= self.versions().len(),
                all@.len() == outputs@.len() + j,
                self.tensors().admits_all(all@),
                forall|k: int|
                    0 <= k < all@.len() ==> (#[trigger] all@[k])@ == whole[k]@ && all@[k].id()
                        == whole[k].id(),
            decreases self.versions().len() - j,
        {
            let version: Tensor = self.version(j);
            all.push(version);
            j += 1;
        }
        assert(values_of(all@) =~= values_of(whole));
        assert(ids_of(all@) =~= ids_of(whole));
        all
    }

    /// A plan of the current versions with the given visible outputs.
    fn plan(&self, outputs: &[Tensor], pruned: bool) -> (r: Result<Plan, Error>)
        requires
            self.wf(),
            self.tensors().admits_all(outputs@),
            pruned ==> self.aligned(),
        ensures
            match r {
                Ok(plan) => {
                    &&& all_local(self.schema(), values_of(outputs@))
                    &&& plan.wf()
                    &&& prepared(*self, outputs@, pruned, plan@)
                },
                Err(e) => !all_local(self.schema(), values_of(outputs@)) && e == invalid(
                    "output belongs to another graph",
                ),
            },
    {
        let ghost whole = outputs@ + self.versions();
        let ghost graph = self.tensors();
        let all: Vec<Tensor> = self.outputs_with_state(outputs);
        let interface: Interface = match self.dataflow().interface(all.as_slice(), !pruned) {
            Ok(interface) => {
                proof {
                    assert forall|k: int| 0 <= k < outputs@.len() implies (
                    #[trigger] values_of(outputs@)[k]).graph == self.schema() by {
                        assert(values_of(all@)[k] == values_of(whole)[k]);
                    }
                }
                interface
            },
            Err(e) => {
                proof {
                    if all_local(self.schema(), values_of(outputs@)) {
                        assert forall|k: int| 0 <= k < all@.len() implies (
                        #[trigger] values_of(all@)[k]).graph == self.schema() by {
                            assert(values_of(all@)[k] == values_of(whole)[k]);
                            if k < outputs@.len() {
                                assert(values_of(outputs@)[k].graph == self.schema());
                            } else {
                                assert(graph.owns(self.versions()[k - outputs@.len()]));
                            }
                        }
                    }
                }
                return Err(e);
            },
        };
        let ghost kept = kept_positions(
            graph.model(),
            graph.wires(),
            ids_of(whole),
            !pruned,
            graph.model().len(),
        );
        let ghost numbers = numbers_at(graph.model(), kept);
        proof {
            graph.lemma_numbers();
            kept_numbers_increase(graph.model(), graph.wires(), ids_of(whole), !pruned);
            preserved_parameters_keep_their_numbers(
                graph.model(),
                graph.wires(),
                ids_of(whole),
                graph.model().len(),
            );
            assert(graph.model().take(graph.model().len() as int) =~= graph.model());
            self.lemma_sizes();
            lemma_numbered_distinct(self.abi(), self.inputs(), self.versions().len());
            assert(numbers == interface.parameters@);
        }
        let declared: &Vec<Argument> = self.declared_arguments();
        let mut arguments: Vec<Argument> = Vec::new();
        if pruned {
            let mut i: usize = 0;
            while i < interface.parameters.len()
                invariant
                    declared@ == self.abi(),
                    numbers == interface.parameters@,
                    forall|k: int| 0 <= k < numbers.len() ==> #[trigger] numbers[k] < declared@.len(),
                    i <= numbers.len(),
                    arguments@.len() == i,
                    forall|k: int|
                        0 <= k < i ==> #[trigger] arguments@[k] == declared@[numbers[k] as int],
                decreases numbers.len() - i,
            {
                let number: usize = interface.parameters[i];
                assert(numbers[i as int] == number);
                arguments.push(declared[number]);
                i += 1;
            }
            assert(arguments@ =~= Seq::new(
                numbers.len(),
                |k: int| self.abi()[numbers[k] as int],
            ));
            assert forall|p: int, q: int|
                0 <= p < q < arguments@.len() && #[trigger] arguments@[p] is Input implies
                arguments@[p] != #[trigger] arguments@[q] by {
                assert(numbers[p] < numbers[q]);
            }
        } else {
            arguments = copied(declared);
        }
        let count: usize = self.input_count();
        let input_parameters: Vec<Option<usize>> = input_map(&arguments, count);
        let plan = Plan {
            owner: self.owner(),
            arguments,
            input_parameters,
            input_count: count,
            visible_count: outputs.len(),
            inputs: interface.inputs,
            types: interface.outputs,
        };
        proof {
            assert forall|k: int| 0 <= k < whole.len() implies type_of(all@[k]@) == type_of(
                #[trigger] whole[k]@,
            ) by {
                assert(values_of(all@)[k] == values_of(whole)[k]);
            }
            assert(all@.len() == whole.len()) by {
                assert(values_of(all@).len() == values_of(whole).len());
            }
            assert(plan@.types =~= Seq::new(whole.len(), |k: int| type_of(whole[k]@)));
        }
        Ok(plan)
    }

    /// Snapshot the visible outputs and all current versions.
    pub fn prepare(&self, outputs: &[Tensor]) -> (r: Result<PreparedStateGraph, Error>)
        requires
            self.wf(),
            self.tensors().admits_all(outputs@),
        ensures
            match r {
                Ok(graph) => {
                    &&& all_local(self.schema(), values_of(outputs@))
                    &&& graph.wf()
                    &&& prepared(*self, outputs@, false, graph@)
                },
                Err(e) => !all_local(self.schema(), values_of(outputs@)) && e == invalid(
                    "output belongs to another graph",
                ),
            },
    {
        Ok(PreparedStateGraph { plan: self.plan(outputs, false)? })
    }

    /// Snapshot with unused inputs left out; state is all kept.
    pub fn prepare_pruned(&self, outputs: &[Tensor]) -> (r: Result<PreparedStateGraph, Error>)
        requires
            self.wf(),
            self.tensors().admits_all(outputs@),
            self.aligned(),
        ensures
            match r {
                Ok(graph) => {
                    &&& all_local(self.schema(), values_of(outputs@))
                    &&& graph.wf()
                    &&& prepared(*self, outputs@, true, graph@)
                },
                Err(e) => !all_local(self.schema(), values_of(outputs@)) && e == invalid(
                    "output belongs to another graph",
                ),
            },
    {
        Ok(PreparedStateGraph { plan: self.plan(outputs, true)? })
    }

    /// The program of the current versions for a client's compiler.
    pub fn compile(&self, client: u64, outputs: &[Tensor]) -> (r: Result<StateProgram, Error>)
        requires
            self.wf(),
            self.tensors().admits_all(outputs@),
        ensures
            match r {
                Ok(program) => {
                    &&& all_local(self.schema(), values_of(outputs@))
                    &&& program.wf()
                    &&& program.device() == client
                    &&& prepared(*self, outputs@, false, program@)
                },
                Err(e) => !all_local(self.schema(), values_of(outputs@)) && e == invalid(
                    "output belongs to another graph",
                ),
            },
    {
        Ok(StateProgram { plan: self.plan(outputs, false)?, client })
    }

    /// The program of the current versions without unused inputs.
    pub fn compile_pruned(&self, client: u64, outputs: &[Tensor]) -> (r: Result<
        StateProgram,
        Error,
    >)
        requires
            self.wf(),
            self.tensors().admits_all(outputs@),
            self.aligned(),
        ensures
            match r {
                Ok(program) => {
                    &&& all_local(self.schema(), values_of(outputs@))
                    &&& program.wf()
                    &&& program.device() == client
                    &&& prepared(*self, outputs@, true, program@)
                },
                Err(e) => !all_local(self.schema(), values_of(outputs@)) && e == invalid(
                    "output belongs to another graph",
                ),
            },
    {
        Ok(StateProgram { plan: self.plan(outputs, true)?, client })
    }
}

/// A state transition before compilation: its schema, arguments and types.
pub struct PreparedStateGraph {
    plan: Plan,
}

impl View for PreparedStateGraph {
    type V = PlanModel;

    closed spec fn view(&self) -> PlanModel {
        self.plan@
    }
}

impl PreparedStateGraph {
    /// The plan is a plan.
    pub closed spec fn wf(self) -> bool {
        self.plan.wf()
    }

    /// A visible result; hidden state is left out.
    pub fn output_spec(&self, index: usize) -> (r: Option<OutputSpec<'_>>)
        requires
            self.wf(),
        ensures
            match r {
                None => index >= self@.visible_count,
                Some(spec) => index < self@.visible_count && spec.shape@
                    == self@.types[index as int].dims && spec.dtype
                    == self@.types[index as int].dtype,
            },
    {
        self.plan.output_spec(index)
    }

    /// The type of the runtime buffer of a parameter. Foreign, pruned and later
    /// registered parameters are refused.
    pub fn parameter_type(&self, parameter: &Parameter) -> (r: Result<(DType, Vec<i64>), Error>)
        requires
            self.wf(),
        ensures
            match r {
                Ok((dtype, dims)) => {
                    &&& parameter_refusal(self@, *parameter) is None
                    &&& dtype == parameter_type_of(self@, *parameter).dtype
                    &&& dims@ == parameter_type_of(self@, *parameter).dims
                },
                Err(e) => parameter_refusal(self@, *parameter) == Some(e),
            },
    {
        self.plan.parameter_type(parameter)
    }

    /// The numbers of the visible inputs that remain, in runtime order.
    pub fn input_indices(&self) -> (r: Vec<usize>)
        requires
            self.wf(),
        ensures
            r@ == kept_inputs(self@.map(), self@.input_count),
    {
        self.plan.input_indices()
    }

    /// The type of a state slot.
    pub fn state_type(&self, slot: &StateSlot) -> (r: Result<(DType, Vec<i64>), Error>)
        requires
            self.wf(),
        ensures
            match r {
                Ok((dtype, dims)) => {
                    &&& slot_refusal(self@.owner, self@.states(), *slot) is None
                    &&& dtype == self@.state(slot.index as int).dtype
                    &&& dims@ == self@.state(slot.index as int).dims
                },
                Err(e) => slot_refusal(self@.owner, self@.states(), *slot) == Some(e),
            },
    {
        self.plan.state_type(slot)
    }

    /// The types of a complete, unique set of slots, in the order given.
    pub fn state_layout(&self, slots: &[StateSlot]) -> (r: Result<Vec<(DType, Vec<i64>)>, Error>)
        requires
            self.wf(),
        ensures
            match r {
                Ok(layout) => {
                    &&& incomplete(self@.owner, self@.states(), slots@) is None
                    &&& layout_view(layout@) == layout_of(self@, slots@)
                },
                Err(e) => incomplete(self@.owner, self@.states(), slots@) == Some(e),
            },
    {
        self.plan.state_layout(slots)
    }

    /// The program of this transition for a client's compiler.
    pub fn compile(&self, client: u64) -> (r: StateProgram)
        requires
            self.wf(),
        ensures
            r.wf(),
            r@ == self@,
            r.device() == client,
    {
        StateProgram { plan: self.plan.duplicate(), client }
    }
}

/// What a state slot is filled with at first.
pub struct ZeroFill {
    pub dtype: DType,
    pub dims: Vec<i64>,
    /// The number of zero elements.
    pub elements: usize,
}

/// Why zeros of a type cannot be made.
pub open spec fn zero_refusal(ty: TypeModel) -> Option<Error> {
    if volume(ty.dims) is None {
        Some(invalid("state element count overflow"))
    } else if ty.dtype is F16 {
        Some(Error::CannotInitialize { dtype: ty.dtype })
    } else {
        None
    }
}

/// Whether a fill is that of a type.
pub open spec fn zeros(fill: ZeroFill, ty: TypeModel) -> bool {
    &&& fill.dtype == ty.dtype
    &&& fill.dims@ == ty.dims
    &&& Some(fill.elements as nat) == volume(ty.dims)
}

/// The refusal among the first `count` zero fills.
pub open spec fn zeros_refusal(types: Seq<TypeModel>, count: nat) -> Option<Error>
    decreases count,
{
    if count == 0 {
        None
    } else {
        match zeros_refusal(types, (count - 1) as nat) {
            Some(e) => Some(e),
            None => zero_refusal(types[count - 1]),
        }
    }
}

/// A refusal found early is the refusal in the end.
proof fn lemma_zeros_refused(types: Seq<TypeModel>, early: nat, count: nat)
    requires
        early <= count,
        zeros_refusal(types, early) is Some,
    ensures
        zeros_refusal(types, count) == zeros_refusal(types, early),
    decreases count - early,
{
    if early < count {
        lemma_zeros_refused(types, early + 1, count);
    }
}

/// The zeros of a type.
fn zero_fill(dtype: DType, dims: Vec<i64>) -> (r: Result<ZeroFill, Error>)
    ensures
        match r {
            Ok(fill) => zero_refusal(TypeModel { dims: dims@, dtype }) is None && zeros(
                fill,
                TypeModel { dims: dims@, dtype },
            ),
            Err(e) => zero_refusal(TypeModel { dims: dims@, dtype }) == Some(e),
        },
{
    let count: usize = match elements(dims.as_slice()) {
        Ok(count) => count,
        Err(_) => {
            return Err(err("state element count overflow"));
        },
    };
    match dtype {
        DType::F16 => Err(Error::CannotInitialize { dtype }),
        _ => Ok(ZeroFill { dtype, dims, elements: count }),
    }
}

/// A compiled state transition for one client.
pub struct StateProgram {
    plan: Plan,
    client: u64,
}

impl View for StateProgram {
    type V = PlanModel;

    closed spec fn view(&self) -> PlanModel {
        self.plan@
    }
}

/// The slots of a named list.
pub open spec fn named_slots(list: Seq<(&str, StateSlot)>) -> Seq<StateSlot> {
    Seq::new(list.len(), |k: int| list[k].1)
}

/// Whether a name is empty or repeats one of the earlier names.
pub open spec fn bad_name(list: Seq<(&str, StateSlot)>, at: int) -> bool {
    list[at].0@.len() == 0 || exists|k: int|
        0 <= k < at && (#[trigger] list[k]).0@ == list[at].0@
}

/// Whether a name of the list stands at a position.
pub open spec fn has_name(list: Seq<(&str, StateSlot)>, at: int, name: Seq<char>) -> bool {
    0 <= at < list.len() && list[at].0@ == name
}

/// Why one entry of a state mapping is refused.
pub open spec fn entry_refusal(
    source: PlanModel,
    from: Seq<(&str, StateSlot)>,
    destination: PlanModel,
    to: Seq<(&str, StateSlot)>,
    at: int,
) -> Option<Error> {
    if bad_name(from, at) {
        Some(invalid("source state names must be nonempty and unique"))
    } else if !exists|j: int| #[trigger] has_name(to, j, from[at].0@) {
        Some(Error::StateNameMissing { name: listing(from[at].0@) })
    } else {
        let j = choose|j: int| #[trigger] has_name(to, j, from[at].0@);
        if source.state(from[at].1.index as int) != destination.state(to[j].1.index as int) {
            Some(Error::StateMappingMismatch { name: listing(from[at].0@) })
        } else {
            None
        }
    }
}

/// The first refusal among the first `count` entries of a state mapping.
pub open spec fn entries_refusal(
    source: PlanModel,
    from: Seq<(&str, StateSlot)>,
    destination: PlanModel,
    to: Seq<(&str, StateSlot)>,
    count: nat,
) -> Option<Error>
    decreases count,
{
    if count == 0 {
        None
    } else {
        match entries_refusal(source, from, destination, to, (count - 1) as nat) {
            Some(e) => Some(e),
            None => entry_refusal(source, from, destination, to, count - 1),
        }
    }
}

/// Why a state mapping is refused.
pub open spec fn mapping_refusal(
    source: PlanModel,
    from: Seq<(&str, StateSlot)>,
    destination: PlanModel,
    to: Seq<(&str, StateSlot)>,
) -> Option<Error> {
    match incomplete(source.owner, source.states(), named_slots(from)) {
        Some(e) => Some(e),
        None => match incomplete(destination.owner, destination.states(), named_slots(to)) {
            Some(e) => Some(e),
            None => if from.len() != to.len() {
                Some(invalid("state mapping name sets differ"))
            } else if exists|j: int| 0 <= j < to.len() && #[trigger] bad_name(to, j) {
                Some(invalid("destination state names must be nonempty and unique"))
            } else {
                entries_refusal(source, from, destination, to, from.len())
            },
        },
    }
}

/// A refusal found early is the refusal in the end.
proof fn lemma_entries_refused(
    source: PlanModel,
    from: Seq<(&str, StateSlot)>,
    destination: PlanModel,
    to: Seq<(&str, StateSlot)>,
    early: nat,
    count: nat,
)
    requires
        early <= count,
        entries_refusal(source, from, destination, to, early) is Some,
    ensures
        entries_refusal(source, from, destination, to, count) == entries_refusal(
            source,
            from,
            destination,
            to,
            early,
        ),
    decreases count - early,
{
    if early < count {
        lemma_entries_refused(source, from, destination, to, early + 1, count);
    }
}

/// Whether a name at a position is empty or repeats an earlier one.
fn is_bad_name(list: &[(&str, StateSlot)], at: usize) -> (r: bool)
    requires
        at < list@.len(),
    ensures
        r == bad_name(list@, at as int),
{
    if list[at].0.unicode_len() == 0 {
        return true;
    }
    let mut k: usize = 0;
    while k < at
        invariant
            k <= at < list@.len(),
            forall|j: int| 0 <= j < k ==> (#[trigger] list@[j]).0@ != list@[at as int].0@,
        decreases at - k,
    {
        if same_text(list[k].0, list[at].0) {
            assert(list@[k as int].0@ == list@[at as int].0@);
            return true;
        }
        k += 1;
    }
    false
}

/// The slots of a named list.
fn slots_of(list: &[(&str, StateSlot)]) -> (r: Vec<StateSlot>)
    ensures
        r@ == named_slots(list@),
{
    let mut slots: Vec<StateSlot> = Vec::new();
    let mut i: usize = 0;
    while i < list.len()
        invariant
            i <= list@.len(),
            slots@.len() == i,
            forall|k: int| 0 <= k < i ==> #[trigger] slots@[k] == list@[k].1,
        decreases list@.len() - i,
    {
        slots.push(list[i].1);
        i += 1;
    }
    assert(slots@ =~= named_slots(list@));
    slots
}

impl StateProgram {
    /// The plan is a plan.
    pub closed spec fn wf(self) -> bool {
        self.plan.wf()
    }

    /// The client that the program runs on.
    pub closed spec fn device(self) -> u64 {
        self.client
    }

    /// The lists of a program have lengths that fit in memory.
    pub proof fn lemma_lengths(self)
        requires
            self.wf(),
        ensures
            self@.wf(),
            self@.arguments.len() <= usize::MAX,
            self@.input_count <= usize::MAX,
            self@.types.len() <= usize::MAX,
            self@.inputs.len() <= usize::MAX,
    {
        self.plan.lemma_lengths();
    }

    /// Another handle to the same program.
    pub fn duplicate(&self) -> (r: StateProgram)
        requires
            self.wf(),
        ensures
            r.wf(),
            r@ == self@,
            r.device() == self.device(),
    {
        StateProgram { plan: self.plan.duplicate(), client: self.client }
    }

    /// The plan of the program.
    pub(crate) fn plan(&self) -> (r: &Plan)
        requires
            self.wf(),
        ensures
            r.wf(),
            r@ == self@,
    {
        &self.plan
    }

    /// The client that owns the program and its state buffers.
    pub fn client(&self) -> (r: u64)
        ensures
            r == self.device(),
    {
        self.client
    }

    /// The numbers of the visible inputs that remain, in runtime order.
    pub fn input_indices(&self) -> (r: Vec<usize>)
        requires
            self.wf(),
        ensures
            r@ == kept_inputs(self@.map(), self@.input_count),
    {
        self.plan.input_indices()
    }

    /// The type of a state slot.
    pub fn state_type(&self, slot: &StateSlot) -> (r: Result<(DType, Vec<i64>), Error>)
        requires
            self.wf(),
        ensures
            match r {
                Ok((dtype, dims)) => {
                    &&& slot_refusal(self@.owner, self@.states(), *slot) is None
                    &&& dtype == self@.state(slot.index as int).dtype
                    &&& dims@ == self@.state(slot.index as int).dims
                },
                Err(e) => slot_refusal(self@.owner, self@.states(), *slot) == Some(e),
            },
    {
        self.plan.state_type(slot)
    }

    /// The type of the runtime buffer of a parameter.
    pub fn parameter_type(&self, parameter: &Parameter) -> (r: Result<(DType, Vec<i64>), Error>)
        requires
            self.wf(),
        ensures
            match r {
                Ok((dtype, dims)) => {
                    &&& parameter_refusal(self@, *parameter) is None
                    &&& dtype == parameter_type_of(self@, *parameter).dtype
                    &&& dims@ == parameter_type_of(self@, *parameter).dims
                },
                Err(e) => parameter_refusal(self@, *parameter) == Some(e),
            },
    {
        self.plan.parameter_type(parameter)
    }

    /// The types of a complete, unique set of slots, in the order given.
    pub fn state_layout(&self, slots: &[StateSlot]) -> (r: Result<Vec<(DType, Vec<i64>)>, Error>)
        requires
            self.wf(),
        ensures
            match r {
                Ok(layout) => {
                    &&& incomplete(self@.owner, self@.states(), slots@) is None
                    &&& layout_view(layout@) == layout_of(self@, slots@)
                },
                Err(e) => incomplete(self@.owner, self@.states(), slots@) == Some(e),
            },
    {
        self.plan.state_layout(slots)
    }

    /// The zeros of one state slot.
    pub fn zero_state_slot(&self, slot: &StateSlot) -> (r: Result<ZeroFill, Error>)
        requires
            self.wf(),
        ensures
            match slot_refusal(self@.owner, self@.states(), *slot) {
                Some(e) => r == Err::<ZeroFill, Error>(e),
                None => match r {
                    Ok(fill) => zero_refusal(self@.state(slot.index as int)) is None && zeros(
                        fill,
                        self@.state(slot.index as int),
                    ),
                    Err(e) => zero_refusal(self@.state(slot.index as int)) == Some(e),
                },
            },
    {
        let (dtype, dims) = self.state_type(slot)?;
        zero_fill(dtype, dims)
    }

    /// The zeros of every state slot, once the whole layout is accepted.
    pub fn zero_state(&self, slots: &[StateSlot]) -> (r: Result<Vec<(StateSlot, ZeroFill)>, Error>)
        requires
            self.wf(),
        ensures
            match incomplete(self@.owner, self@.states(), slots@) {
                Some(e) => r == Err::<Vec<(StateSlot, ZeroFill)>, Error>(e),
                None => match r {
                    Ok(list) => {
                        &&& zeros_refusal(layout_of(self@, slots@), slots@.len()) is None
                        &&& list@.len() == slots@.len()
                        &&& forall|k: int|
                            0 <= k < list@.len() ==> (#[trigger] list@[k]).0 == slots@[k] && zeros(
                                list@[k].1,
                                self@.state(slots@[k].index as int),
                            )
                    },
                    Err(e) => zeros_refusal(layout_of(self@, slots@), slots@.len()) == Some(e),
                },
            },
    {
        let layout: Vec<(DType, Vec<i64>)> = self.state_layout(slots)?;
        let ghost types = layout_of(self@, slots@);
        let mut list: Vec<(StateSlot, ZeroFill)> = Vec::new();
        let mut i: usize = 0;
        assert(layout_view(layout@).len() == types.len());
        while i < slots.len()
            invariant
                layout_view(layout@) == types,
                layout@.len() == slots@.len(),
                incomplete(self@.owner, self@.states(), slots@) is None,
                types == layout_of(self@, slots@),
                i <= slots@.len(),
                zeros_refusal(types, i as nat) is None,
                list@.len() == i,
                forall|k: int|
                    0 <= k < i ==> (#[trigger] list@[k]).0 == slots@[k] && zeros(
                        list@[k].1,
                        types[k],
                    ),
            decreases slots@.len() - i,
        {
            assert(layout_view(layout@)[i as int] == types[i as int]);
            match zero_fill(layout[i].0, copied(&layout[i].1)) {
                Ok(fill) => {
                    list.push((slots[i], fill));
                },
                Err(e) => {
                    proof {
                        lemma_zeros_refused(types, (i + 1) as nat, slots@.len());
                    }
                    return Err(e);
                },
            }
            i += 1;
        }
        Ok(list)
    }

    /// Pair the state of this program with that of another by names. Both lists
    /// cover their whole state, names are unique, and types agree.
    pub fn map_state_by_name(
        &self,
        source: &[(&str, StateSlot)],
        destination: &StateProgram,
        target: &[(&str, StateSlot)],
    ) -> (r: Result<Vec<(StateSlot, StateSlot)>, Error>)
        requires
            self.wf(),
            destination.wf(),
        ensures
            match r {
                Ok(list) => {
                    &&& mapping_refusal(self@, source@, destination@, target@) is None
                    &&& list@.len() == source@.len()
                    &&& forall|k: int|
                        0 <= k < list@.len() ==> (#[trigger] list@[k]).0 == source@[k].1
                            && exists|j: int|
                            #[trigger] has_name(target@, j, source@[k].0@) && list@[k].1
                                == target@[j].1
                },
                Err(e) => mapping_refusal(self@, source@, destination@, target@) == Some(e),
            },
    {
        let source_slots: Vec<StateSlot> = slots_of(source);
        let target_slots: Vec<StateSlot> = slots_of(target);
        let from: Vec<(DType, Vec<i64>)> = self.state_layout(source_slots.as_slice())?;
        let to: Vec<(DType, Vec<i64>)> = destination.state_layout(target_slots.as_slice())?;
        if source.len() != target.len() {
            return Err(err("state mapping name sets differ"));
        }
        let mut j: usize = 0;
        while j < target.len()
            invariant
                incomplete(self@.owner, self@.states(), named_slots(source@)) is None,
                incomplete(destination@.owner, destination@.states(), named_slots(target@)) is None,
                source@.len() == target@.len(),
                j <= target@.len(),
                forall|k: int| 0 <= k < j ==> !#[trigger] bad_name(target@, k),
            decreases target@.len() - j,
        {
            if is_bad_name(target, j) {
                return Err(err("destination state names must be nonempty and unique"));
            }
            j += 1;
        }
        let ghost from_types = layout_of(self@, named_slots(source@));
        let ghost to_types = layout_of(destination@, named_slots(target@));
        let mut list: Vec<(StateSlot, StateSlot)> = Vec::new();
        let mut i: usize = 0;
        proof {
            assert(layout_view(from@).len() == source@.len());
            assert(layout_view(to@).len() == target@.len());
        }
        while i < source.len()
            invariant
                incomplete(self@.owner, self@.states(), named_slots(source@)) is None,
                incomplete(destination@.owner, destination@.states(), named_slots(target@)) is None,
                source@.len() == target@.len(),
                forall|k: int| 0 <= k < target@.len() ==> !#[trigger] bad_name(target@, k),
                from_types == layout_of(self@, named_slots(source@)),
                to_types == layout_of(destination@, named_slots(target@)),
                layout_view(from@) == from_types,
                layout_view(to@) == to_types,
                from@.len() == source@.len(),
                to@.len() == target@.len(),
                i <= source@.len(),
                entries_refusal(self@, source@, destination@, target@, i as nat) is None,
                list@.len() == i,
                forall|k: int|
                    0 <= k < i ==> (#[trigger] list@[k]).0 == source@[k].1 && exists|t: int|
                        #[trigger] has_name(target@, t, source@[k].0@) && list@[k].1
                            == target@[t].1,
            decreases source@.len() - i,
        {
            let ghost refusal = entry_refusal(self@, source@, destination@, target@, i as int);
            proof {
                if refusal is Some {
                    lemma_entries_refused(
                        self@,
                        source@,
                        destination@,
                        target@,
                        (i + 1) as nat,
                        source@.len(),
                    );
                }
            }
            if is_bad_name(source, i) {
                return Err(err("source state names must be nonempty and unique"));
            }
            let name: &str = source[i].0;
            let mut found: Option<usize> = None;
            let mut t: usize = 0;
            while t < target.len()
                invariant
                    t <= target@.len(),
                    name@ == source@[i as int].0@,
                    match found {
                        Some(at) => has_name(target@, at as int, name@),
                        None => forall|k: int| 0 <= k < t ==> (#[trigger] target@[k]).0@ != name@,
                    },
                decreases target@.len() - t,
            {
                if found.is_none() && same_text(target[t].0, name) {
                    found = Some(t);
                }
                t += 1;
            }
            let at: usize = match found {
                None => {
                    return Err(Error::StateNameMissing { name: listed_text(name) });
                },
                Some(at) => at,
            };
            proof {
                assert(has_name(target@, at as int, name@));
                let other = choose|k: int| #[trigger] has_name(target@, k, source@[i as int].0@);
                if other < at {
                    assert(bad_name(target@, at as int)) by {
                        assert(target@[other].0@ == target@[at as int].0@);
                    }
                } else if at < other {
                    assert(bad_name(target@, other)) by {
                        assert(target@[at as int].0@ == target@[other].0@);
                    }
                }
                assert(other == at);
                assert(layout_view(from@)[i as int] == from_types[i as int]);
                assert(layout_view(to@)[at as int] == to_types[at as int]);
            }
            if from[i].0 != to[at].0 || !same_dims(from[i].1.as_slice(), to[at].1.as_slice()) {
                return Err(Error::StateMappingMismatch { name: listed_text(name) });
            }
            list.push((source[i].1, target[at].1));
            assert(has_name(target@, at as int, source@[i as int].0@) && list@[i as int].1
                == target@[at as int].1);
            i += 1;
        }
        Ok(list)
    }
}

} // verus!
