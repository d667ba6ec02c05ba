//! Device meshes, placement constraints and execution plans.
use crate::compiler::LoweredProgram;
use crate::error::{err, invalid, Error};
use crate::image::same_text;
use vstd::prelude::*;

verus! {

/// One named axis of a device mesh.
#[derive(Debug)]
pub struct MeshAxis {
    pub name: String,
    pub size: usize,
}

/// Devices arranged along named axes.
#[derive(Debug)]
pub struct Mesh {
    pub axes: Vec<MeshAxis>,
}

/// The mesh axis that each tensor axis is split over, if any.
#[derive(Debug)]
pub struct PartitionSpec {
    pub axes: Vec<Option<String>>,
}

/// Where a value lives on a mesh: split as its specification says, or a whole
/// copy on every device.
#[derive(Debug)]
pub struct Sharding {
    pub mesh: Mesh,
    pub spec: Option<PartitionSpec>,
}

/// A placement that is fixed for one value of a program.
#[derive(Debug)]
pub struct ShardingConstraint {
    pub value: usize,
    pub sharding: Sharding,
}

/// The names and sizes of the axes of a mesh.
pub type MeshModel = Seq<(Seq<char>, usize)>;

/// The content of a sharding.
#[verifier::ext_equal]
pub ghost struct ShardingModel {
    pub mesh: MeshModel,
    pub spec: Option<Seq<Option<Seq<char>>>>,
}

/// The content of a constraint.
pub ghost struct ConstraintModel {
    pub value: usize,
    pub sharding: ShardingModel,
}

impl View for MeshAxis {
    type V = (Seq<char>, usize);

    open spec fn view(&self) -> (Seq<char>, usize) {
        (self.name@, self.size)
    }
}

impl View for Mesh {
    type V = MeshModel;

    open spec fn view(&self) -> MeshModel {
        Seq::new(self.axes@.len(), |k: int| self.axes@[k]@)
    }
}

/// The text of an optional name.
pub open spec fn name_view(name: Option<String>) -> Option<Seq<char>> {
    match name {
        Some(text) => Some(text@),
        None => None,
    }
}

impl View for PartitionSpec {
    type V = Seq<Option<Seq<char>>>;

    open spec fn view(&self) -> Seq<Option<Seq<char>>> {
        Seq::new(self.axes@.len(), |k: int| name_view(self.axes@[k]))
    }
}

impl View for Sharding {
    type V = ShardingModel;

    open spec fn view(&self) -> ShardingModel {
        ShardingModel {
            mesh: self.mesh@,
            spec: match self.spec {
                Some(spec) => Some(spec@),
                None => None,
            },
        }
    }
}

impl View for ShardingConstraint {
    type V = ConstraintModel;

    open spec fn view(&self) -> ConstraintModel {
        ConstraintModel { value: self.value, sharding: self.sharding@ }
    }
}

/// The number of devices along the first `count` axes, if it and those of all
/// shorter lists fit.
pub open spec fn mesh_devices(mesh: MeshModel, count: nat) -> Option<nat>
    decreases count,
{
    if count == 0 {
        Some(1)
    } else {
        match mesh_devices(mesh, (count - 1) as nat) {
            None => None,
            Some(devices) => if devices * (mesh[count - 1].1 as nat) > usize::MAX {
                None
            } else {
                Some(devices * (mesh[count - 1].1 as nat))
            },
        }
    }
}

/// A count that does not fit stays so with more axes.
proof fn lemma_mesh_overflow(mesh: MeshModel, early: nat, count: nat)
    requires
        early <= count,
        mesh_devices(mesh, early) is None,
    ensures
        mesh_devices(mesh, count) is None,
    decreases count - early,
{
    if early < count {
        lemma_mesh_overflow(mesh, early + 1, count);
    }
}

impl Mesh {
    /// The mesh with one named axis.
    pub fn line(name: &str, size: usize) -> (r: Mesh)
        ensures
            r@ == seq![(name@, size)],
    {
        let r = Mesh { axes: vec![MeshAxis { name: name.to_owned(), size }] };
        assert(r@ =~= seq![(name@, size)]);
        r
    }

    /// The number of devices.
    pub fn device_count(&self) -> (r: Result<usize, Error>)
        ensures
            match r {
                Ok(devices) => mesh_devices(self@, self@.len()) == Some(devices as nat),
                Err(e) => mesh_devices(self@, self@.len()) is None && e == invalid(
                    "mesh device count overflow",
                ),
            },
    {
        let mut devices: usize = 1;
        let mut i: usize = 0;
        while i < self.axes.len()
            invariant
                i <= self.axes@.len(),
                mesh_devices(self@, i as nat) == Some(devices as nat),
            decreases self.axes@.len() - i,
        {
            assert(self@[i as int].1 == self.axes@[i as int].size);
            match devices.checked_mul(self.axes[i].size) {
                Some(product) => {
                    devices = product;
                },
                None => {
                    proof {
                        lemma_mesh_overflow(self@, (i + 1) as nat, self@.len());
                    }
                    return Err(err("mesh device count overflow"));
                },
            }
            i += 1;
        }
        Ok(devices)
    }

    /// Whether two meshes have the same axes.
    pub fn same(&self, other: &Mesh) -> (r: bool)
        ensures
            r == (self@ == other@),
    {
        if self.axes.len() != other.axes.len() {
            assert(self@.len() != other@.len());
            return false;
        }
        let mut i: usize = 0;
        while i < self.axes.len()
            invariant
                self.axes@.len() == other.axes@.len(),
                i <= self.axes@.len(),
                forall|k: int| 0 <= k < i ==> #[trigger] self@[k] == other@[k],
            decreases self.axes@.len() - i,
        {
            let a: &MeshAxis = &self.axes[i];
            let b: &MeshAxis = &other.axes[i];
            if a.size != b.size || !same_text(a.name.as_str(), b.name.as_str()) {
                assert(self@[i as int] != other@[i as int]);
                return false;
            }
            i += 1;
        }
        assert(self@ =~= other@);
        true
    }

    /// A copy of the mesh.
    pub fn duplicate(&self) -> (r: Mesh)
        ensures
            r@ == self@,
    {
        let mut axes: Vec<MeshAxis> = Vec::new();
        let mut i: usize = 0;
        while i < self.axes.len()
            invariant
                i <= self.axes@.len(),
                axes@.len() == i,
                forall|k: int| 0 <= k < i ==> (#[trigger] axes@[k])@ == self.axes@[k]@,
            decreases self.axes@.len() - i,
        {
            let axis: &MeshAxis = &self.axes[i];
            axes.push(MeshAxis { name: axis.name.as_str().to_owned(), size: axis.size });
            i += 1;
        }
        let r = Mesh { axes };
        assert(r@ =~= self@);
        r
    }
}

impl PartitionSpec {
    /// A copy of the specification.
    pub fn duplicate(&self) -> (r: PartitionSpec)
        ensures
            r@ == self@,
    {
        let mut axes: Vec<Option<String>> = Vec::new();
        let mut i: usize = 0;
        while i < self.axes.len()
            invariant
                i <= self.axes@.len(),
                axes@.len() == i,
                forall|k: int|
                    0 <= k < i ==> name_view(#[trigger] axes@[k]) == name_view(self.axes@[k]),
            decreases self.axes@.len() - i,
        {
            let axis: Option<String> = match &self.axes[i] {
                Some(name) => Some(name.as_str().to_owned()),
                None => None,
            };
            axes.push(axis);
            i += 1;
        }
        let r = PartitionSpec { axes };
        assert(r@ =~= self@);
        r
    }
}

impl Sharding {
    /// A whole copy on every device.
    pub fn replicated(mesh: Mesh) -> (r: Sharding)
        ensures
            r@ == (ShardingModel { mesh: mesh@, spec: None }),
    {
        Sharding { mesh, spec: None }
    }

    /// A split over the mesh.
    pub fn partitioned(mesh: Mesh, spec: PartitionSpec) -> (r: Sharding)
        ensures
            r@ == (ShardingModel { mesh: mesh@, spec: Some(spec@) }),
    {
        Sharding { mesh, spec: Some(spec) }
    }

    /// A copy of the sharding.
    pub fn duplicate(&self) -> (r: Sharding)
        ensures
            r@ == self@,
    {
        let spec: Option<PartitionSpec> = match &self.spec {
            Some(spec) => Some(spec.duplicate()),
            None => None,
        };
        Sharding { mesh: self.mesh.duplicate(), spec }
    }
}

/// How hard the backend searches for a placement.
#[derive(Clone, Copy, PartialEq, Eq, Structural, Debug)]
pub enum EffortLevel {
    O0,
    O1,
    O2,
    O3,
}

/// The rank of an effort level.
pub open spec fn effort_rank(effort: EffortLevel) -> nat {
    match effort {
        EffortLevel::O0 => 0,
        EffortLevel::O1 => 1,
        EffortLevel::O2 => 2,
        EffortLevel::O3 => 3,
    }
}

/// The effort that a search budget asks for.
pub open spec fn effort_of(budget: usize) -> EffortLevel {
    if 1 <= budget <= 16 {
        EffortLevel::O0
    } else if 17 <= budget <= 256 {
        EffortLevel::O1
    } else if 257 <= budget <= 4096 {
        EffortLevel::O2
    } else {
        EffortLevel::O3
    }
}

/// A larger budget never asks for less effort.
pub proof fn effort_grows_with_the_budget(less: usize, more: usize)
    requires
        1 <= less <= more,
    ensures
        effort_rank(effort_of(less)) <= effort_rank(effort_of(more)),
{
}

/// A mesh to plan for, and a portable hint how hard to search.
#[derive(Debug)]
pub struct AutoShardingOptions {
    mesh: Mesh,
    max_search_states: usize,
}

impl AutoShardingOptions {
    /// The mesh to plan for.
    pub closed spec fn target(self) -> MeshModel {
        self.mesh@
    }

    /// The search budget.
    pub closed spec fn budget(self) -> usize {
        self.max_search_states
    }

    /// Options with a nonzero search budget.
    pub fn new(mesh: Mesh, max_search_states: usize) -> (r: Result<AutoShardingOptions, Error>)
        ensures
            match r {
                Ok(options) => {
                    &&& max_search_states != 0
                    &&& options.target() == mesh@
                    &&& options.budget() == max_search_states
                },
                Err(e) => max_search_states == 0 && e == invalid(
                    "auto-sharding search budget must be nonzero",
                ),
            },
    {
        if max_search_states == 0 {
            return Err(err("auto-sharding search budget must be nonzero"));
        }
        Ok(AutoShardingOptions { mesh, max_search_states })
    }

    /// The mesh to plan for.
    pub fn mesh(&self) -> (r: &Mesh)
        ensures
            r@ == self.target(),
    {
        &self.mesh
    }

    /// The search budget.
    pub fn max_search_states(&self) -> (r: usize)
        ensures
            r == self.budget(),
    {
        self.max_search_states
    }

    /// The effort that the budget asks for.
    pub fn effort_level(&self) -> (r: EffortLevel)
        ensures
            r == effort_of(self.budget()),
    {
        let budget: usize = self.max_search_states;
        if budget >= 1 && budget <= 16 {
            EffortLevel::O0
        } else if budget >= 17 && budget <= 256 {
            EffortLevel::O1
        } else if budget >= 257 && budget <= 4096 {
            EffortLevel::O2
        } else {
            EffortLevel::O3
        }
    }

    /// A copy of the options.
    pub fn duplicate(&self) -> (r: AutoShardingOptions)
        ensures
            r.target() == self.target(),
            r.budget() == self.budget(),
    {
        AutoShardingOptions {
            mesh: self.mesh.duplicate(),
            max_search_states: self.max_search_states,
        }
    }
}

/// How programs are placed on devices.
#[derive(Debug)]
pub enum PlanningPolicy {
    SingleDevice,
    Auto(AutoShardingOptions),
}

/// The content of a policy.
pub ghost enum PolicyModel {
    SingleDevice,
    Auto { mesh: MeshModel, budget: usize },
}

impl View for PlanningPolicy {
    type V = PolicyModel;

    open spec fn view(&self) -> PolicyModel {
        match self {
            PlanningPolicy::SingleDevice => PolicyModel::SingleDevice,
            PlanningPolicy::Auto(options) => PolicyModel::Auto {
                mesh: options.target(),
                budget: options.budget(),
            },
        }
    }
}

impl Default for PlanningPolicy {
    fn default() -> (r: PlanningPolicy)
        ensures
            r@ == PolicyModel::SingleDevice,
    {
        PlanningPolicy::SingleDevice
    }
}

impl PlanningPolicy {
    /// A copy of the policy.
    pub fn duplicate(&self) -> (r: PlanningPolicy)
        ensures
            r@ == self@,
    {
        match self {
            PlanningPolicy::SingleDevice => PlanningPolicy::SingleDevice,
            PlanningPolicy::Auto(options) => PlanningPolicy::Auto(options.duplicate()),
        }
    }
}

/// One stage of a plan.
#[derive(Clone, Copy, PartialEq, Eq, Structural, Debug)]
pub struct ExecutionStage {
    pub index: usize,
    pub input_count: usize,
    pub output_count: usize,
    pub device_count: usize,
}

impl ExecutionStage {
    /// The position of the stage.
    pub fn index(&self) -> (r: usize)
        ensures
            r == self.index,
    {
        self.index
    }

    /// The number of inputs.
    pub fn input_count(&self) -> (r: usize)
        ensures
            r == self.input_count,
    {
        self.input_count
    }

    /// The number of outputs.
    pub fn output_count(&self) -> (r: usize)
        ensures
            r == self.output_count,
    {
        self.output_count
    }

    /// The number of devices.
    pub fn device_count(&self) -> (r: usize)
        ensures
            r == self.device_count,
    {
        self.device_count
    }
}

/// Whether the placement of a value is fixed, or left to the backend's search.
#[derive(Debug)]
pub enum ShardingDecision {
    Explicit(Sharding),
    Auto { mesh: Mesh },
}

/// The content of a decision.
pub ghost enum DecisionModel {
    Explicit(ShardingModel),
    Auto { mesh: MeshModel },
}

impl View for ShardingDecision {
    type V = DecisionModel;

    open spec fn view(&self) -> DecisionModel {
        match self {
            ShardingDecision::Explicit(sharding) => DecisionModel::Explicit(sharding@),
            ShardingDecision::Auto { mesh } => DecisionModel::Auto { mesh: mesh@ },
        }
    }
}

/// The placement decision for one value of a program.
#[derive(Debug)]
pub struct PlannedSharding {
    pub value: usize,
    pub decision: ShardingDecision,
}

impl View for PlannedSharding {
    type V = (usize, DecisionModel);

    open spec fn view(&self) -> (usize, DecisionModel) {
        (self.value, self.decision@)
    }
}

impl PlannedSharding {
    /// The number of the value.
    pub fn value(&self) -> (r: usize)
        ensures
            r == self.value,
    {
        self.value
    }

    /// The decision.
    pub fn decision(&self) -> (r: &ShardingDecision)
        ensures
            *r == self.decision,
    {
        &self.decision
    }

    /// The fixed placement, if it is fixed.
    pub fn sharding(&self) -> (r: Option<&Sharding>)
        ensures
            match r {
                Some(sharding) => self@.1 == DecisionModel::Explicit(sharding@),
                None => self@.1 is Auto,
            },
    {
        match &self.decision {
            ShardingDecision::Explicit(sharding) => Some(sharding),
            ShardingDecision::Auto { .. } => None,
        }
    }

    /// Whether the placement is fixed.
    pub fn is_constraint(&self) -> (r: bool)
        ensures
            r == (self@.1 is Explicit),
    {
        match &self.decision {
            ShardingDecision::Explicit(_) => true,
            ShardingDecision::Auto { .. } => false,
        }
    }

    /// Whether the placement is left to the search.
    pub fn is_auto(&self) -> (r: bool)
        ensures
            r == (self@.1 is Auto),
    {
        !self.is_constraint()
    }
}

/// The content of a plan.
pub ghost struct Placement {
    pub policy: PolicyModel,
    pub stages: Seq<ExecutionStage>,
    pub shardings: Seq<(usize, DecisionModel)>,
}

impl Placement {
    /// The largest number of devices of a stage.
    pub open spec fn required(self) -> nat {
        most_devices(self.stages, self.stages.len())
    }
}

/// The largest number of devices among the first `count` stages.
pub open spec fn most_devices(stages: Seq<ExecutionStage>, count: nat) -> nat
    decreases count,
{
    if count == 0 {
        0
    } else {
        let rest = most_devices(stages, (count - 1) as nat);
        if stages[count - 1].device_count > rest {
            stages[count - 1].device_count as nat
        } else {
            rest
        }
    }
}

/// The decisions of a list.
pub open spec fn decisions_view(list: Seq<PlannedSharding>) -> Seq<(usize, DecisionModel)> {
    Seq::new(list.len(), |k: int| list[k]@)
}

/// A plan for the execution of a program.
#[derive(Debug)]
pub struct ExecutionPlan {
    policy: PlanningPolicy,
    stages: Vec<ExecutionStage>,
    shardings: Vec<PlannedSharding>,
}

impl View for ExecutionPlan {
    type V = Placement;

    closed spec fn view(&self) -> Placement {
        Placement {
            policy: self.policy@,
            stages: self.stages@,
            shardings: decisions_view(self.shardings@),
        }
    }
}

impl ExecutionPlan {
    /// The policy that the plan follows.
    pub fn policy(&self) -> (r: &PlanningPolicy)
        ensures
            r@ == self@.policy,
    {
        &self.policy
    }

    /// The stages, in order.
    pub fn stages(&self) -> (r: &[ExecutionStage])
        ensures
            r@ == self@.stages,
    {
        self.stages.as_slice()
    }

    /// The placement decisions.
    pub fn shardings(&self) -> (r: &[PlannedSharding])
        ensures
            decisions_view(r@) == self@.shardings,
    {
        self.shardings.as_slice()
    }

    /// The largest number of devices of a stage.
    pub fn required_devices(&self) -> (r: usize)
        ensures
            r == self@.required(),
    {
        let mut most: usize = 0;
        let mut i: usize = 0;
        while i < self.stages.len()
            invariant
                i <= self.stages@.len(),
                most == most_devices(self.stages@, i as nat),
            decreases self.stages@.len() - i,
        {
            let devices: usize = self.stages[i].device_count;
            if devices > most {
                most = devices;
            }
            i += 1;
        }
        most
    }

    /// Whether the program must be partitioned before it is compiled.
    pub fn requires_spmd_partitioning(&self) -> (r: bool)
        ensures
            r == (self@.required() > 1),
    {
        self.required_devices() > 1
    }

    /// Whether some placement is fixed.
    pub fn has_constraints(&self) -> (r: bool)
        ensures
            r == fixes_some(self@.shardings),
    {
        let mut i: usize = 0;
        while i < self.shardings.len()
            invariant
                i <= self.shardings@.len(),
                forall|k: int| 0 <= k < i ==> !((#[trigger] self@.shardings[k]).1 is Explicit),
            decreases self.shardings@.len() - i,
        {
            assert(self@.shardings[i as int] == self.shardings@[i as int]@);
            if self.shardings[i].is_constraint() {
                return true;
            }
            i += 1;
        }
        false
    }
}

/// Whether some placement of a list is fixed.
pub open spec fn fixes_some(shardings: Seq<(usize, DecisionModel)>) -> bool {
    exists|k: int| 0 <= k < shardings.len() && (#[trigger] shardings[k]).1 is Explicit
}

/// What a planner needs to know of a program.
#[derive(Debug)]
pub struct PlanningSnapshot {
    pub constraints: Vec<ShardingConstraint>,
    pub value_count: usize,
    pub input_count: usize,
    pub output_count: usize,
}

/// The content of planning facts.
pub ghost struct FactsModel {
    pub constraints: Seq<ConstraintModel>,
    pub value_count: usize,
    pub input_count: usize,
    pub output_count: usize,
}

/// The constraints of a list.
pub open spec fn constraints_view(list: Seq<ShardingConstraint>) -> Seq<ConstraintModel> {
    Seq::new(list.len(), |k: int| list[k]@)
}

impl View for PlanningSnapshot {
    type V = FactsModel;

    open spec fn view(&self) -> FactsModel {
        FactsModel {
            constraints: constraints_view(self.constraints@),
            value_count: self.value_count,
            input_count: self.input_count,
            output_count: self.output_count,
        }
    }
}

/// Whether every constraint is for a single device.
pub open spec fn all_single(constraints: Seq<ConstraintModel>) -> bool {
    forall|k: int|
        0 <= k < constraints.len() ==> mesh_devices(
            (#[trigger] constraints[k]).sharding.mesh,
            constraints[k].sharding.mesh.len(),
        ) == Some(1nat)
}

/// Whether every constraint is for the given mesh.
pub open spec fn all_on(constraints: Seq<ConstraintModel>, mesh: MeshModel) -> bool {
    forall|k: int|
        0 <= k < constraints.len() ==> (#[trigger] constraints[k]).sharding.mesh == mesh
}

/// The decision for a value: that of the last of the first `count` constraints
/// on it, else the search.
pub open spec fn decided(
    constraints: Seq<ConstraintModel>,
    mesh: MeshModel,
    value: usize,
    count: nat,
) -> DecisionModel
    decreases count,
{
    if count == 0 {
        DecisionModel::Auto { mesh }
    } else if constraints[count - 1].value == value {
        DecisionModel::Explicit(constraints[count - 1].sharding)
    } else {
        decided(constraints, mesh, value, (count - 1) as nat)
    }
}

/// The only stage of a plan.
pub open spec fn only_stage(facts: FactsModel, devices: nat) -> Seq<ExecutionStage> {
    seq![
        ExecutionStage {
            index: 0,
            input_count: facts.input_count,
            output_count: facts.output_count,
            device_count: devices as usize,
        },
    ]
}

/// The plan of a program under a policy, or why there is none.
pub open spec fn planned(facts: FactsModel, policy: PolicyModel) -> Result<Placement, Error> {
    match policy {
        PolicyModel::SingleDevice => if !all_single(facts.constraints) {
            Err(invalid("multi-device sharding constraint requires an auto-sharding planner"))
        } else {
            Ok(
                Placement {
                    policy,
                    stages: only_stage(facts, 1),
                    shardings: Seq::new(
                        facts.constraints.len(),
                        |k: int|
                            (
                                facts.constraints[k].value,
                                DecisionModel::Explicit(facts.constraints[k].sharding),
                            ),
                    ),
                },
            )
        },
        PolicyModel::Auto { mesh, budget } => if !all_on(facts.constraints, mesh) {
            Err(invalid("sharding constraint mesh does not match the auto-sharding mesh"))
        } else {
            match mesh_devices(mesh, mesh.len()) {
                None => Err(invalid("mesh device count overflow")),
                Some(devices) => Ok(
                    Placement {
                        policy,
                        stages: only_stage(facts, devices),
                        shardings: Seq::new(
                            facts.value_count as nat,
                            |v: int|
                                (
                                    v as usize,
                                    decided(
                                        facts.constraints,
                                        mesh,
                                        v as usize,
                                        facts.constraints.len(),
                                    ),
                                ),
                        ),
                    },
                ),
            }
        },
    }
}

/// A plan for a single device needs exactly one.
pub proof fn single_device_plans_stay_local(facts: FactsModel)
    ensures
        planned(facts, PolicyModel::SingleDevice) matches Ok(plan) ==> plan.required() == 1,
{
    let stages = only_stage(facts, 1);
    assert(most_devices(stages, 0) == 0);
    assert(most_devices(stages, 1) == 1);
}

/// An automatic plan places every value, in order: where the program fixes it,
/// as fixed, and otherwise by search; always on the mesh of the policy.
pub proof fn automatic_plans_place_every_value(
    facts: FactsModel,
    mesh: MeshModel,
    budget: usize,
    value: usize,
)
    requires
        value < facts.value_count,
    ensures
        planned(facts, PolicyModel::Auto { mesh, budget }) matches Ok(plan) ==> {
            &&& plan.shardings.len() == facts.value_count
            &&& plan.shardings[value as int].0 == value
            &&& match plan.shardings[value as int].1 {
                DecisionModel::Explicit(sharding) => sharding.mesh == mesh && exists|k: int|
                    0 <= k < facts.constraints.len() && (#[trigger] facts.constraints[k]).value
                        == value && facts.constraints[k].sharding == sharding,
                DecisionModel::Auto { mesh: m } => m == mesh && forall|k: int|
                    0 <= k < facts.constraints.len() ==> (#[trigger] facts.constraints[k]).value
                        != value,
            }
        },
{
    lemma_decided(facts.constraints, mesh, value, facts.constraints.len());
}

/// What a decision says of the constraints.
proof fn lemma_decided(
    constraints: Seq<ConstraintModel>,
    mesh: MeshModel,
    value: usize,
    count: nat,
)
    requires
        count <= constraints.len(),
    ensures
        match decided(constraints, mesh, value, count) {
            DecisionModel::Explicit(sharding) => exists|k: int|
                0 <= k < count && (#[trigger] constraints[k]).value == value
                    && constraints[k].sharding == sharding,
            DecisionModel::Auto { mesh: m } => m == mesh && forall|k: int|
                0 <= k < count ==> (#[trigger] constraints[k]).value != value,
        },
    decreases count,
{
    if count > 0 {
        if constraints[count - 1].value == value {
            assert(constraints[count - 1].value == value);
        } else {
            lemma_decided(constraints, mesh, value, (count - 1) as nat);
        }
    }
}

impl PlanningSnapshot {
    /// Whether every constraint is for a single device.
    fn all_single(&self) -> (r: bool)
        ensures
            r == all_single(self@.constraints),
    {
        let mut i: usize = 0;
        while i < self.constraints.len()
            invariant
                i <= self.constraints@.len(),
                forall|k: int|
                    0 <= k < i ==> mesh_devices(
                        (#[trigger] self@.constraints[k]).sharding.mesh,
                        self@.constraints[k].sharding.mesh.len(),
                    ) == Some(1nat),
            decreases self.constraints@.len() - i,
        {
            assert(self@.constraints[i as int] == self.constraints@[i as int]@);
            let single: bool = match self.constraints[i].sharding.mesh.device_count() {
                Ok(devices) => devices == 1,
                Err(_) => false,
            };
            if !single {
                return false;
            }
            i += 1;
        }
        true
    }

    /// Whether every constraint is for the given mesh.
    fn all_on(&self, mesh: &Mesh) -> (r: bool)
        ensures
            r == all_on(self@.constraints, mesh@),
    {
        let mut i: usize = 0;
        while i < self.constraints.len()
            invariant
                i <= self.constraints@.len(),
                forall|k: int|
                    0 <= k < i ==> (#[trigger] self@.constraints[k]).sharding.mesh == mesh@,
            decreases self.constraints@.len() - i,
        {
            assert(self@.constraints[i as int] == self.constraints@[i as int]@);
            if !self.constraints[i].sharding.mesh.same(mesh) {
                return false;
            }
            i += 1;
        }
        true
    }

    /// The decision for a value.
    fn decide(&self, mesh: &Mesh, value: usize) -> (r: ShardingDecision)
        ensures
            r@ == decided(self@.constraints, mesh@, value, self@.constraints.len()),
    {
        let mut i: usize = self.constraints.len();
        while i > 0
            invariant
                i <= self.constraints@.len(),
                decided(self@.constraints, mesh@, value, self@.constraints.len()) == decided(
                    self@.constraints,
                    mesh@,
                    value,
                    i as nat,
                ),
            decreases i,
        {
            i = i - 1;
            assert(self@.constraints[i as int] == self.constraints@[i as int]@);
            if self.constraints[i].value == value {
                return ShardingDecision::Explicit(self.constraints[i].sharding.duplicate());
            }
        }
        ShardingDecision::Auto { mesh: mesh.duplicate() }
    }

    /// The decisions that the constraints fix.
    fn fixed(&self) -> (r: Vec<PlannedSharding>)
        ensures
            decisions_view(r@) == Seq::new(
                self@.constraints.len(),
                |k: int|
                    (
                        self@.constraints[k].value,
                        DecisionModel::Explicit(self@.constraints[k].sharding),
                    ),
            ),
    {
        let mut list: Vec<PlannedSharding> = Vec::new();
        let mut i: usize = 0;
        while i < self.constraints.len()
            invariant
                i <= self.constraints@.len(),
                list@.len() == i,
                forall|k: int|
                    0 <= k < i ==> (#[trigger] list@[k])@ == (
                        self@.constraints[k].value,
                        DecisionModel::Explicit(self@.constraints[k].sharding),
                    ),
            decreases self.constraints@.len() - i,
        {
            let constraint: &ShardingConstraint = &self.constraints[i];
            assert(self@.constraints[i as int] == constraint@);
            list.push(
                PlannedSharding {
                    value: constraint.value,
                    decision: ShardingDecision::Explicit(constraint.sharding.duplicate()),
                },
            );
            i += 1;
        }
        list
    }

    /// A decision for every value.
    fn all(&self, mesh: &Mesh) -> (r: Vec<PlannedSharding>)
        ensures
            decisions_view(r@) == Seq::new(
                self.value_count as nat,
                |v: int|
                    (
                        v as usize,
                        decided(
                            self@.constraints,
                            mesh@,
                            v as usize,
                            self@.constraints.len(),
                        ),
                    ),
            ),
    {
        let mut list: Vec<PlannedSharding> = Vec::new();
        let mut value: usize = 0;
        while value < self.value_count
            invariant
                value <= self.value_count,
                list@.len() == value,
                forall|v: int|
                    0 <= v < value ==> (#[trigger] list@[v])@ == (
                        v as usize,
                        decided(
                            self@.constraints,
                            mesh@,
                            v as usize,
                            self@.constraints.len(),
                        ),
                    ),
            decreases self.value_count - value,
        {
            list.push(PlannedSharding { value, decision: self.decide(mesh, value) });
            value += 1;
        }
        list
    }

    /// Plan the program under a policy.
    pub fn plan(&self, policy: PlanningPolicy) -> (r: Result<ExecutionPlan, Error>)
        ensures
            match r {
                Ok(plan) => planned(self@, policy@) == Ok::<Placement, Error>(plan@),
                Err(e) => planned(self@, policy@) == Err::<Placement, Error>(e),
            },
    {
        let (devices, shardings): (usize, Vec<PlannedSharding>) = match &policy {
            PlanningPolicy::SingleDevice => {
                if !self.all_single() {
                    return Err(
                        err("multi-device sharding constraint requires an auto-sharding planner"),
                    );
                }
                (1, self.fixed())
            },
            PlanningPolicy::Auto(options) => {
                let mesh: &Mesh = options.mesh();
                if !self.all_on(mesh) {
                    return Err(
                        err("sharding constraint mesh does not match the auto-sharding mesh"),
                    );
                }
                (mesh.device_count()?, self.all(mesh))
            },
        };
        let stage = ExecutionStage {
            index: 0,
            input_count: self.input_count,
            output_count: self.output_count,
            device_count: devices,
        };
        let plan = ExecutionPlan { policy, stages: vec![stage], shardings };
        assert(plan.stages@ =~= only_stage(self@, devices as nat));
        Ok(plan)
    }

    /// A copy of the facts.
    pub fn duplicate(&self) -> (r: PlanningSnapshot)
        ensures
            r@ == self@,
    {
        let mut constraints: Vec<ShardingConstraint> = Vec::new();
        let mut i: usize = 0;
        while i < self.constraints.len()
            invariant
                i <= self.constraints@.len(),
                constraints@.len() == i,
                forall|k: int|
                    0 <= k < i ==> (#[trigger] constraints@[k])@ == self.constraints@[k]@,
            decreases self.constraints@.len() - i,
        {
            let constraint: &ShardingConstraint = &self.constraints[i];
            constraints.push(
                ShardingConstraint {
                    value: constraint.value,
                    sharding: constraint.sharding.duplicate(),
                },
            );
            i += 1;
        }
        assert(constraints_view(constraints@) =~= self@.constraints);
        PlanningSnapshot {
            constraints,
            value_count: self.value_count,
            input_count: self.input_count,
            output_count: self.output_count,
        }
    }

    /// The program of an SPMD compilation, if there is one device for each that
    /// the plan requires. The program carries its constraints itself, so it
    /// stays as it is.
    pub fn lower_spmd<'a>(
        &self,
        lowered: &'a LoweredProgram,
        plan: &ExecutionPlan,
        device_ids: &[i64],
    ) -> (r: Result<&'a LoweredProgram, Error>)
        ensures
            r == if device_ids@.len() == plan@.required() {
                Ok::<&'a LoweredProgram, Error>(lowered)
            } else {
                Err(invalid("SPMD device assignment does not match execution plan"))
            },
    {
        if device_ids.len() != plan.required_devices() {
            return Err(err("SPMD device assignment does not match execution plan"));
        }
        Ok(lowered)
    }
}

} // verus!
