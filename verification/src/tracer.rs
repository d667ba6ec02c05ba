//! Traces of tensor expressions, and the programs made of them.
use crate::attention::causal_mask;
use crate::compiler::{lowers_to, prepares_to, program_of, LoweredProgram};
use crate::dtype::DType;
use crate::error::{err, invalid, Error};
use crate::graph::{
    constant, constant_i32, declared, iota, scalar_i32, widened, Graph, Tensor, Value,
};
use crate::interface::{ids_of, kept_positions, needed, numbers_at};
use crate::op::Scalar;
use crate::plan::{InputSpec, OutputSpec};
use crate::planning::{
    constraints_view, planned, ConstraintModel, ExecutionPlan, FactsModel, Placement,
    PlanningPolicy, PlanningSnapshot, Sharding, ShardingConstraint, ShardingModel,
};
use vstd::prelude::*;

verus! {

/// The positions of placed values, with their placements.
pub type Placements = Seq<(usize, ShardingModel)>;

/// The placement of a position among the first `count`, if it has one.
pub open spec fn placed_at(list: Placements, id: usize, count: nat) -> Option<int>
    decreases count,
{
    if count == 0 {
        None
    } else {
        match placed_at(list, id, (count - 1) as nat) {
            Some(k) => Some(k),
            None => if list[count - 1].0 == id {
                Some(count - 1)
            } else {
                None
            },
        }
    }
}

/// What the place of a placement says.
proof fn lemma_placed_at(list: Placements, id: usize, count: nat)
    requires
        count <= list.len(),
    ensures
        match placed_at(list, id, count) {
            Some(k) => 0 <= k < count && list[k].0 == id,
            None => forall|j: int| 0 <= j < count ==> (#[trigger] list[j]).0 != id,
        },
    decreases count,
{
    if count > 0 {
        lemma_placed_at(list, id, (count - 1) as nat);
    }
}

/// The placements with one more, which replaces an earlier one of the same
/// position.
pub open spec fn placed(list: Placements, id: usize, sharding: ShardingModel) -> Placements {
    match placed_at(list, id, list.len()) {
        Some(k) => list.update(k, (id, sharding)),
        None => list.push((id, sharding)),
    }
}

/// Whether no position has two placements.
pub open spec fn placed_once(list: Placements) -> bool {
    forall|i: int, j: int|
        0 <= i < j < list.len() ==> (#[trigger] list[i]).0 != (#[trigger] list[j]).0
}

/// The positions, among the first `count`, that contribute to the roots.
pub open spec fn live_positions(
    values: Seq<Value>,
    wires: Seq<Seq<usize>>,
    roots: Seq<usize>,
    count: nat,
) -> Seq<usize>
    decreases count,
{
    if count == 0 {
        Seq::empty()
    } else {
        let rest = live_positions(values, wires, roots, (count - 1) as nat);
        if needed(values, wires, roots, count - 1) {
            rest.push((count - 1) as usize)
        } else {
            rest
        }
    }
}

/// The constraints on the first `count` live values, numbered among the live
/// ones.
pub open spec fn live_constraints(list: Placements, live: Seq<usize>, count: nat) -> Seq<
    ConstraintModel,
>
    decreases count,
{
    if count == 0 {
        Seq::empty()
    } else {
        let rest = live_constraints(list, live, (count - 1) as nat);
        match placed_at(list, live[count - 1], list.len()) {
            Some(k) => rest.push(
                ConstraintModel { value: (count - 1) as usize, sharding: list[k].1 },
            ),
            None => rest,
        }
    }
}

/// What a planner needs to know of the program with the given roots: its live
/// values renumbered, and the constraints on them.
pub open spec fn facts_of(graph: Graph, list: Placements, roots: Seq<usize>) -> FactsModel {
    let live = live_positions(graph.model(), graph.wires(), roots, graph.model().len());
    FactsModel {
        constraints: live_constraints(list, live, live.len()),
        value_count: live.len() as usize,
        input_count: kept_positions(
            graph.model(),
            graph.wires(),
            roots,
            false,
            graph.model().len(),
        ).len() as usize,
        output_count: roots.len() as usize,
    }
}

/// A live value keeps its placement, under its new number.
pub proof fn live_values_keep_their_placements(
    list: Placements,
    live: Seq<usize>,
    count: nat,
    value: int,
)
    requires
        0 <= value < count <= live.len(),
        live.len() <= usize::MAX,
    ensures
        match placed_at(list, live[value], list.len()) {
            Some(k) => live_constraints(list, live, count).contains(
                ConstraintModel { value: value as usize, sharding: list[k].1 },
            ),
            None => forall|j: int|
                0 <= j < live_constraints(list, live, count).len() ==> (
                #[trigger] live_constraints(list, live, count)[j]).value != value,
        },
    decreases count,
{
    let rest = live_constraints(list, live, (count - 1) as nat);
    let all = live_constraints(list, live, count);
    if value < count - 1 {
        live_values_keep_their_placements(list, live, (count - 1) as nat, value);
        match placed_at(list, live[value], list.len()) {
            Some(k) => {
                let wanted = ConstraintModel { value: value as usize, sharding: list[k].1 };
                let j = choose|j: int| 0 <= j < rest.len() && rest[j] == wanted;
                assert(all[j] == wanted);
            },
            None => {
                assert forall|j: int| 0 <= j < all.len() implies (#[trigger] all[j]).value
                    != value by {
                    if j < rest.len() {
                        assert(rest[j].value != value);
                    }
                }
            },
        }
    } else {
        lemma_constraint_values(list, live, (count - 1) as nat);
        match placed_at(list, live[value], list.len()) {
            Some(k) => {
                assert(all[rest.len() as int] == (ConstraintModel {
                    value: value as usize,
                    sharding: list[k].1,
                }));
            },
            None => {},
        }
    }
}

/// Constraints are numbered among the values that were counted.
proof fn lemma_constraint_values(list: Placements, live: Seq<usize>, count: nat)
    requires
        count <= live.len(),
        live.len() <= usize::MAX,
    ensures
        forall|j: int|
            0 <= j < live_constraints(list, live, count).len() ==> (
            #[trigger] live_constraints(list, live, count)[j]).value < count,
    decreases count,
{
    if count > 0 {
        lemma_constraint_values(list, live, (count - 1) as nat);
    }
}

/// A single trace of tensor expressions, with the placements of its values.
pub struct Tracer {
    graph: Graph,
    shardings: Vec<(usize, Sharding)>,
}

impl Tracer {
    /// The recorded values.
    pub closed spec fn tensors(self) -> Graph {
        self.graph
    }

    /// The placements of values.
    pub closed spec fn placements(self) -> Placements {
        Seq::new(self.shardings@.len(), |k: int| (self.shardings@[k].0, self.shardings@[k].1@))
    }

    /// The identity of the trace.
    pub open spec fn key(self) -> u64 {
        self.tensors().key()
    }

    /// The trace holds placements of its own values, one for each.
    pub open spec fn wf(self) -> bool {
        &&& self.tensors().wf()
        &&& placed_once(self.placements())
        &&& forall|k: int|
            0 <= k < self.placements().len() ==> (#[trigger] self.placements()[k]).0
                < self.tensors().model().len()
    }

    /// Only values were recorded.
    pub open spec fn grows(self, old: Tracer) -> bool {
        &&& self.wf()
        &&& self.tensors().extends(old.tensors())
        &&& self.placements() == old.placements()
    }

    /// An empty trace with the given identity, which must differ from that of every
    /// other live graph.
    pub fn new(id: u64) -> (r: Tracer)
        ensures
            r.wf(),
            r.key() == id,
            r.tensors().model().len() == 0,
            r.placements().len() == 0,
    {
        Tracer { graph: Graph::new(id), shardings: Vec::new() }
    }

    /// The recorded values, to record more.
    pub fn graph(&mut self) -> (r: &mut Graph)
        requires
            old(self).wf(),
        ensures
            *r == old(self).tensors(),
            final(self).tensors() == *final(r),
            final(self).placements() == old(self).placements(),
            final(r).extends(old(self).tensors()) ==> final(self).grows(*old(self)),
    {
        &mut self.graph
    }

    /// The recorded values.
    pub fn dataflow(&self) -> (r: &Graph)
        ensures
            *r == self.tensors(),
    {
        &self.graph
    }

    /// Declare an F32 program input.
    pub fn input(&mut self, dims: &[i64]) -> (r: Result<Tensor, Error>)
        requires
            old(self).wf(),
        ensures
            final(self).grows(*old(self)),
            final(self).tensors().yields(r, declared(old(self).key(), old(self).tensors().model(), dims@, DType::F32)),
            final(self).tensors().records(old(self).tensors(), r),
    {
        self.graph.input(dims)
    }

    /// Declare a program input with an explicit element type.
    pub fn input_dtype(&mut self, dims: &[i64], dtype: DType) -> (r: Result<Tensor, Error>)
        requires
            old(self).wf(),
        ensures
            final(self).grows(*old(self)),
            final(self).tensors().yields(r, declared(old(self).key(), old(self).tensors().model(), dims@, dtype)),
            final(self).tensors().records(old(self).tensors(), r),
    {
        self.graph.input_dtype(dims, dtype)
    }

    /// Declare a BF16 program input with a conversion to F32.
    pub fn input_bf16_as_f32(&mut self, dims: &[i64]) -> (r: Result<Tensor, Error>)
        requires
            old(self).wf(),
        ensures
            final(self).grows(*old(self)),
            final(self).tensors().yields(r, widened(old(self).key(), old(self).tensors().model(), dims@)),
            match r {
                Ok(t) => final(self).tensors().model() == old(self).tensors().model().push(
                    declared(
                        old(self).key(),
                        old(self).tensors().model(),
                        dims@,
                        DType::BF16,
                    )->Is_0,
                ).push(t@),
                Err(_) => final(self).tensors() == old(self).tensors(),
            },
    {
        self.graph.input_bf16_as_f32(dims)
    }

    /// Declare an I32 program input.
    pub fn input_i32(&mut self, dims: &[i64]) -> (r: Result<Tensor, Error>)
        requires
            old(self).wf(),
        ensures
            final(self).grows(*old(self)),
            final(self).tensors().yields(r, declared(old(self).key(), old(self).tensors().model(), dims@, DType::I32)),
            final(self).tensors().records(old(self).tensors(), r),
    {
        self.graph.input_i32(dims)
    }

    /// Declare a scalar I32 program input.
    pub fn input_i32_scalar(&mut self) -> (r: Result<Tensor, Error>)
        requires
            old(self).wf(),
        ensures
            final(self).grows(*old(self)),
            final(self).tensors().yields(r, declared(old(self).key(), old(self).tensors().model(), Seq::<i64>::empty(), DType::I32)),
            final(self).tensors().records(old(self).tensors(), r),
    {
        self.graph.input_i32_scalar()
    }

    /// An F32 constant with the given extents.
    pub fn constant(&mut self, dims: &[i64], values: &[Scalar]) -> (r: Result<Tensor, Error>)
        requires
            old(self).wf(),
        ensures
            final(self).grows(*old(self)),
            final(self).tensors().yields(r, constant(old(self).key(), dims@, values@)),
            final(self).tensors().records(old(self).tensors(), r),
    {
        self.graph.constant(dims, values)
    }

    /// An I32 constant with the given extents.
    pub fn constant_i32(&mut self, dims: &[i64], values: &[i32]) -> (r: Result<Tensor, Error>)
        requires
            old(self).wf(),
        ensures
            final(self).grows(*old(self)),
            final(self).tensors().yields(r, constant_i32(old(self).key(), dims@, values@)),
            final(self).tensors().records(old(self).tensors(), r),
    {
        self.graph.constant_i32(dims, values)
    }

    /// A rank-zero I32 constant.
    pub fn scalar_i32(&mut self, value: i32) -> (r: Result<Tensor, Error>)
        requires
            old(self).wf(),
        ensures
            final(self).grows(*old(self)),
            final(self).tensors().yields(r, scalar_i32(old(self).key(), value)),
            final(self).tensors().records(old(self).tensors(), r),
    {
        self.graph.scalar_i32(value)
    }

    /// I32 coordinates along one axis.
    pub fn iota_i32(&mut self, dims: &[i64], axis: usize) -> (r: Result<Tensor, Error>)
        requires
            old(self).wf(),
        ensures
            final(self).grows(*old(self)),
            final(self).tensors().yields(r, iota(old(self).key(), dims@, axis)),
            final(self).tensors().records(old(self).tensors(), r),
    {
        self.graph.iota_i32(dims, axis)
    }

    /// A static additive causal mask.
    pub fn causal_attention_mask(&mut self, queries: i64, keys: i64, query_offset: i64) -> (r: Result<Tensor, Error>)
        requires
            old(self).wf(),
        ensures
            final(self).grows(*old(self)),
            final(self).tensors().yields(r, causal_mask(old(self).key(), queries, keys, query_offset)),
    {
        self.graph.causal_attention_mask(queries, keys, query_offset)
    }

    /// The place of a placement.
    fn place_of(&self, id: usize) -> (r: Option<usize>)
        ensures
            match r {
                Some(k) => k < self.placements().len() && placed_at(
                    self.placements(),
                    id,
                    self.placements().len(),
                ) == Some(k as int),
                None => placed_at(self.placements(), id, self.placements().len()) is None,
            },
    {
        let ghost list = self.placements();
        let mut found: Option<usize> = None;
        let mut i: usize = 0;
        while i < self.shardings.len()
            invariant
                list == self.placements(),
                i <= self.shardings@.len(),
                match found {
                    Some(k) => placed_at(list, id, i as nat) == Some(k as int) && k < i,
                    None => placed_at(list, id, i as nat) is None,
                },
            decreases self.shardings@.len() - i,
        {
            assert(list[i as int].0 == self.shardings@[i as int].0);
            if found.is_none() && self.shardings[i].0 == id {
                found = Some(i);
            }
            i += 1;
        }
        found
    }

    /// Fix the placement of a value.
    pub fn set_sharding(&mut self, tensor: &Tensor, sharding: Sharding) -> (r: Result<(), Error>)
        requires
            old(self).wf(),
            old(self).tensors().admits(*tensor),
        ensures
            final(self).wf(),
            final(self).tensors() == old(self).tensors(),
            match r {
                Ok(_) => tensor@.graph == old(self).key() && final(self).placements() == placed(
                    old(self).placements(),
                    tensor.id(),
                    sharding@,
                ),
                Err(e) => {
                    &&& tensor@.graph != old(self).key()
                    &&& e == invalid("invalid tensor expression node")
                    &&& final(self).placements() == old(self).placements()
                },
            },
    {
        let ghost before = self.placements();
        if tensor.graph_id() != self.graph.id() {
            return Err(err("invalid tensor expression node"));
        }
        let id: usize = tensor.node_id();
        let ghost place = (id, sharding@);
        proof {
            lemma_placed_at(before, id, before.len());
        }
        match self.place_of(id) {
            Some(k) => {
                self.shardings.set(k, (id, sharding));
                assert(self.placements() =~= before.update(k as int, place));
            },
            None => {
                self.shardings.push((id, sharding));
                assert(self.placements() =~= before.push(place));
            },
        }
        Ok(())
    }

    /// The placement of a value, if it is fixed.
    pub fn sharding(&self, tensor: &Tensor) -> (r: Option<&Sharding>)
        ensures
            match placed_at(self.placements(), tensor.id(), self.placements().len()) {
                Some(k) => r matches Some(sharding) && sharding@ == self.placements()[k].1,
                None => r is None,
            },
    {
        match self.place_of(tensor.node_id()) {
            Some(k) => {
                assert(self.placements()[k as int].1 == self.shardings@[k as int].1@);
                Some(&self.shardings[k].1)
            },
            None => None,
        }
    }

    /// The program with one output and all declared inputs.
    pub fn prepare(&self, output: &Tensor, code: &str) -> (r: Result<LoweredProgram, Error>)
        requires
            self.wf(),
            self.tensors().admits(*output),
        ensures
            exists|outputs: Seq<Tensor>|
                outputs.len() == 1 && outputs[0]@ == output@ && outputs[0].id() == output.id()
                    && #[trigger] prepares_to(self.tensors(), outputs, true, code@, r),
    {
        self.graph.prepare(output, code)
    }

    /// The program with all declared inputs.
    pub fn prepare_many(&self, outputs: &[Tensor], code: &str) -> (r: Result<
        LoweredProgram,
        Error,
    >)
        requires
            self.wf(),
            self.tensors().admits_all(outputs@),
        ensures
            prepares_to(self.tensors(), outputs@, true, code@, r),
    {
        self.graph.prepare_many(outputs, code)
    }

    /// The program with the inputs that its outputs need, and their
    /// registration numbers.
    pub fn prepare_pruned(&self, outputs: &[Tensor], code: &str) -> (r: Result<
        (LoweredProgram, Vec<usize>),
        Error,
    >)
        requires
            self.wf(),
            self.tensors().admits_all(outputs@),
        ensures
            prepares_to(self.tensors(), outputs@, false, code@, program_of(r)),
            r matches Ok(pair) ==> pair.1@ == numbers_at(
                self.tensors().model(),
                kept_positions(
                    self.tensors().model(),
                    self.tensors().wires(),
                    ids_of(outputs@),
                    false,
                    self.tensors().model().len(),
                ),
            ),
    {
        self.graph.prepare_pruned(outputs, code)
    }

    /// The positions that contribute to the roots.
    fn live(&self, roots: &Vec<usize>) -> (r: Vec<usize>)
        requires
            self.wf(),
        ensures
            r@ == live_positions(
                self.tensors().model(),
                self.tensors().wires(),
                roots@,
                self.tensors().model().len(),
            ),
    {
        let ghost values = self.tensors().model();
        let ghost wires = self.tensors().wires();
        let flags: Vec<bool> = self.graph.contributing(roots);
        let mut live: Vec<usize> = Vec::new();
        let mut i: usize = 0;
        while i < flags.len()
            invariant
                i <= flags@.len(),
                forall|k: int|
                    0 <= k < flags@.len() ==> #[trigger] flags@[k] == needed(values, wires, roots@, k),
                live@ == live_positions(values, wires, roots@, i as nat),
            decreases flags@.len() - i,
        {
            assert(flags@[i as int] == needed(values, wires, roots@, i as int));
            if flags[i] {
                live.push(i);
            }
            i += 1;
        }
        live
    }

    /// The constraints on live values.
    fn constraints(&self, live: &Vec<usize>) -> (r: Vec<ShardingConstraint>)
        ensures
            constraints_view(r@) == live_constraints(self.placements(), live@, live@.len()),
    {
        let ghost list = self.placements();
        let mut constraints: Vec<ShardingConstraint> = Vec::new();
        let mut i: usize = 0;
        assert(constraints_view(constraints@) =~= live_constraints(list, live@, 0));
        while i < live.len()
            invariant
                list == self.placements(),
                i <= live@.len(),
                constraints_view(constraints@) == live_constraints(list, live@, i as nat),
            decreases live@.len() - i,
        {
            let ghost before = constraints_view(constraints@);
            match self.place_of(live[i]) {
                Some(k) => {
                    assert(list[k as int].1 == self.shardings@[k as int].1@);
                    let constraint = ShardingConstraint {
                        value: i,
                        sharding: self.shardings[k].1.duplicate(),
                    };
                    let ghost model = constraint@;
                    constraints.push(constraint);
                    assert(constraints_view(constraints@) =~= before.push(model));
                },
                None => {},
            }
            i += 1;
        }
        constraints
    }

    /// The program with the given outputs and the inputs that they need. It
    /// does not depend on the trace any more.
    pub fn program(&self, outputs: &[Tensor], code: &str) -> (r: Result<Program, Error>)
        requires
            self.wf(),
            self.tensors().admits_all(outputs@),
        ensures
            traces_to(*self, outputs@, code@, r),
    {
        let (lowered, _parameters): (LoweredProgram, Vec<usize>) = self.graph.lowered(
            outputs,
            false,
            code,
        )?;
        let mut roots: Vec<usize> = Vec::new();
        let mut i: usize = 0;
        while i < outputs.len()
            invariant
                i <= outputs@.len(),
                roots@ == ids_of(outputs@).take(i as int),
            decreases outputs@.len() - i,
        {
            roots.push(outputs[i].node_id());
            assert(ids_of(outputs@).take(i + 1) =~= ids_of(outputs@).take(i as int).push(
                outputs@[i as int].id(),
            ));
            i += 1;
        }
        assert(roots@ =~= ids_of(outputs@));
        let live: Vec<usize> = self.live(&roots);
        let planning = PlanningSnapshot {
            constraints: self.constraints(&live),
            value_count: live.len(),
            input_count: lowered.input_count(),
            output_count: outputs.len(),
        };
        Ok(Program { planning, lowered })
    }
}

/// A traced computation, independent of its trace and of any device.
pub struct Program {
    planning: PlanningSnapshot,
    lowered: LoweredProgram,
}

/// Whether a result is the program of a trace with the given outputs, or the
/// reason why there is none.
pub open spec fn traces_to(
    tracer: Tracer,
    outputs: Seq<Tensor>,
    code: Seq<char>,
    r: Result<Program, Error>,
) -> bool {
    match r {
        Ok(program) => {
            &&& program.facts() == facts_of(
                tracer.tensors(),
                tracer.placements(),
                ids_of(outputs),
            )
            &&& lowers_to(
                tracer.tensors(),
                outputs,
                false,
                code,
                Ok::<LoweredProgram, Error>(program.form()),
            )
        },
        Err(e) => lowers_to(
            tracer.tensors(),
            outputs,
            false,
            code,
            Err::<LoweredProgram, Error>(e),
        ),
    }
}

/// Whether all values belong to the graph of the first.
pub open spec fn one_trace(outputs: Seq<Tensor>) -> bool {
    forall|k: int| 0 <= k < outputs.len() ==> (#[trigger] outputs[k])@.graph == outputs[0]@.graph
}

impl Program {
    /// The planning facts.
    pub closed spec fn facts(self) -> FactsModel {
        self.planning@
    }

    /// The lowered form.
    pub closed spec fn form(self) -> LoweredProgram {
        self.lowered
    }

    /// The program of expressions of one trace.
    pub fn from_tensors(tracer: &Tracer, outputs: &[Tensor], code: &str) -> (r: Result<
        Program,
        Error,
    >)
        requires
            tracer.wf(),
            tracer.tensors().admits_all(outputs@),
        ensures
            if outputs@.len() == 0 {
                r == Err::<Program, Error>(invalid("program requires at least one Tensor output"))
            } else if !one_trace(outputs@) {
                r == Err::<Program, Error>(
                    invalid("program outputs belong to different lazy traces"),
                )
            } else {
                traces_to(*tracer, outputs@, code@, r)
            },
    {
        if outputs.len() == 0 {
            return Err(err("program requires at least one Tensor output"));
        }
        assert(tracer.tensors().admits(outputs@[0]));
        let first: u64 = outputs[0].graph_id();
        let mut i: usize = 0;
        while i < outputs.len()
            invariant
                tracer.tensors().admits_all(outputs@),
                outputs@.len() > 0,
                first == outputs@[0]@.graph,
                i <= outputs@.len(),
                forall|k: int| 0 <= k < i ==> (#[trigger] outputs@[k])@.graph == first,
            decreases outputs@.len() - i,
        {
            assert(tracer.tensors().admits(outputs@[i as int]));
            if outputs[i].graph_id() != first {
                return Err(err("program outputs belong to different lazy traces"));
            }
            i += 1;
        }
        tracer.program(outputs, code)
    }

    /// Plan the program under a policy.
    pub fn plan(&self, policy: PlanningPolicy) -> (r: Result<ExecutionPlan, Error>)
        ensures
            match r {
                Ok(plan) => planned(self.facts(), policy@) == Ok::<Placement, Error>(plan@),
                Err(e) => planned(self.facts(), policy@) == Err::<Placement, Error>(e),
            },
    {
        self.planning.plan(policy)
    }

    /// The planning facts.
    pub fn planning(&self) -> (r: &PlanningSnapshot)
        ensures
            r@ == self.facts(),
    {
        &self.planning
    }

    /// The number of inputs.
    pub fn input_count(&self) -> (r: usize)
        ensures
            r == self.form().input_types().len(),
    {
        self.lowered.input_count()
    }

    /// The number of outputs.
    pub fn output_count(&self) -> (r: usize)
        ensures
            r == self.form().output_types().len(),
    {
        self.lowered.output_count()
    }

    /// The type of an input.
    pub fn input_spec(&self, index: usize) -> (r: Option<InputSpec<'_>>)
        ensures
            match r {
                None => index >= self.form().input_types().len(),
                Some(spec) => index < self.form().input_types().len() && spec.shape@
                    == self.form().input_types()[index as int].dims && spec.dtype
                    == self.form().input_types()[index as int].dtype,
            },
    {
        self.lowered.input_spec(index)
    }

    /// The type of an output.
    pub fn output_spec(&self, index: usize) -> (r: Option<OutputSpec<'_>>)
        ensures
            match r {
                None => index >= self.form().output_types().len(),
                Some(spec) => index < self.form().output_types().len() && spec.shape@
                    == self.form().output_types()[index as int].dims && spec.dtype
                    == self.form().output_types()[index as int].dtype,
            },
    {
        self.lowered.output_spec(index)
    }

    /// The lowered form.
    pub fn lowered_program(&self) -> (r: &LoweredProgram)
        ensures
            *r == self.form(),
    {
        &self.lowered
    }
}

impl Tensor {
    /// The program of this expression alone.
    pub fn program(&self, tracer: &Tracer, code: &str) -> (r: Result<Program, Error>)
        requires
            tracer.wf(),
            tracer.tensors().admits(*self),
        ensures
            exists|outputs: Seq<Tensor>|
                outputs.len() == 1 && outputs[0]@ == self@ && outputs[0].id() == self.id()
                    && #[trigger] traces_to(*tracer, outputs, code@, r),
    {
        let outputs: Vec<Tensor> = vec![self.copy()];
        assert(tracer.tensors().admits(outputs@[0]));
        let result: Result<Program, Error> = Program::from_tensors(
            tracer,
            outputs.as_slice(),
            code,
        );
        assert(traces_to(*tracer, outputs@, code@, result));
        result
    }
}

/// A reusable computation with one output.
pub struct TensorFunction {
    program: Program,
}

/// The program of a result that holds a function.
pub open spec fn body_of(r: Result<TensorFunction, Error>) -> Result<Program, Error> {
    match r {
        Ok(function) => Ok(function.body()),
        Err(e) => Err(e),
    }
}

impl TensorFunction {
    /// The program of the function.
    pub closed spec fn body(self) -> Program {
        self.program
    }

    /// The function with the given output of a trace.
    pub fn new(tracer: &Tracer, output: &Tensor, code: &str) -> (r: Result<TensorFunction, Error>)
        requires
            tracer.wf(),
            tracer.tensors().admits(*output),
        ensures
            exists|outputs: Seq<Tensor>|
                outputs.len() == 1 && outputs[0]@ == output@ && outputs[0].id() == output.id()
                    && #[trigger] traces_to(*tracer, outputs, code@, body_of(r)),
    {
        let program: Program = output.program(tracer, code)?;
        Ok(TensorFunction { program })
    }

    /// The program of the function.
    pub fn program(&self) -> (r: &Program)
        ensures
            *r == self.body(),
    {
        &self.program
    }
}

} // verus!
