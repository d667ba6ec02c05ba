//! What the backend is told about a compilation: partitions, devices and the
//! search for a placement.
use crate::disk_cache::DeviceInfo;
use crate::error::{err, invalid, Error};
use crate::planning::{
    effort_of, AutoShardingOptions, EffortLevel, ExecutionPlan, Mesh, MeshModel, Placement,
    PlanningPolicy, PolicyModel,
};
use vstd::prelude::*;

verus! {

/// The options of a compilation. Every computation has one replica, on one
/// device.
#[derive(Debug)]
pub struct CompileOptions {
    pub num_replicas: i64,
    pub num_partitions: i64,
    pub device_ordinal: i64,
    pub replica_count: i32,
    pub computation_count: i32,
    pub computation_devices: Vec<i64>,
    pub use_spmd_partitioning: bool,
    pub use_auto_spmd_partitioning: bool,
    pub use_shardy_partitioner: bool,
    pub optimization_level: Option<EffortLevel>,
    pub mesh_shape: Vec<i64>,
    pub mesh_ids: Vec<i64>,
}

/// The content of the options.
#[verifier::ext_equal]
pub ghost struct OptionsModel {
    pub num_replicas: i64,
    pub num_partitions: i64,
    pub device_ordinal: i64,
    pub replica_count: i32,
    pub computation_count: i32,
    pub computation_devices: Seq<i64>,
    pub use_spmd_partitioning: bool,
    pub use_auto_spmd_partitioning: bool,
    pub use_shardy_partitioner: bool,
    pub optimization_level: Option<EffortLevel>,
    pub mesh_shape: Seq<i64>,
    pub mesh_ids: Seq<i64>,
}

impl View for CompileOptions {
    type V = OptionsModel;

    open spec fn view(&self) -> OptionsModel {
        OptionsModel {
            num_replicas: self.num_replicas,
            num_partitions: self.num_partitions,
            device_ordinal: self.device_ordinal,
            replica_count: self.replica_count,
            computation_count: self.computation_count,
            computation_devices: self.computation_devices@,
            use_spmd_partitioning: self.use_spmd_partitioning,
            use_auto_spmd_partitioning: self.use_auto_spmd_partitioning,
            use_shardy_partitioner: self.use_shardy_partitioner,
            optimization_level: self.optimization_level,
            mesh_shape: self.mesh_shape@,
            mesh_ids: self.mesh_ids@,
        }
    }
}

/// The options of a program on one device.
pub open spec fn local_options(id: i32) -> OptionsModel {
    OptionsModel {
        num_replicas: 1,
        num_partitions: 1,
        device_ordinal: (-1int) as i64,
        replica_count: 1,
        computation_count: 1,
        computation_devices: seq![id as i64],
        use_spmd_partitioning: false,
        use_auto_spmd_partitioning: false,
        use_shardy_partitioner: false,
        optimization_level: None,
        mesh_shape: Seq::empty(),
        mesh_ids: Seq::empty(),
    }
}

/// The options of a program on one device.
pub fn single_device_options(id: i32) -> (r: CompileOptions)
    ensures
        r@ == local_options(id),
{
    let devices: Vec<i64> = vec![id as i64];
    assert(devices@ =~= seq![id as i64]);
    CompileOptions {
        num_replicas: 1,
        num_partitions: 1,
        device_ordinal: -1,
        replica_count: 1,
        computation_count: 1,
        computation_devices: devices,
        use_spmd_partitioning: false,
        use_auto_spmd_partitioning: false,
        use_shardy_partitioner: false,
        optimization_level: None,
        mesh_shape: Vec::new(),
        mesh_ids: Vec::new(),
    }
}

/// The position of the first selected device among the first `count`.
pub open spec fn first_selected(devices: Seq<DeviceInfo>, count: nat) -> Option<int>
    decreases count,
{
    if count == 0 {
        None
    } else {
        match first_selected(devices, (count - 1) as nat) {
            Some(k) => Some(k),
            None => if devices[count - 1].selected {
                Some(count - 1)
            } else {
                None
            },
        }
    }
}

/// The first selected device is one of the list.
pub proof fn lemma_first_selected(devices: Seq<DeviceInfo>, count: nat)
    requires
        count <= devices.len(),
    ensures
        first_selected(devices, count) matches Some(k) ==> 0 <= k < count && devices[k].selected,
    decreases count,
{
    if count > 0 {
        lemma_first_selected(devices, (count - 1) as nat);
    }
}

/// The position of the first selected device.
pub(crate) fn selected_device(devices: &Vec<DeviceInfo>) -> (r: Option<usize>)
    ensures
        match r {
            Some(k) => k < devices@.len() && first_selected(devices@, devices@.len()) == Some(
                k as int,
            ),
            None => first_selected(devices@, devices@.len()) is None,
        },
{
    let mut found: Option<usize> = None;
    let mut i: usize = 0;
    while i < devices.len()
        invariant
            i <= devices@.len(),
            match found {
                Some(k) => k < i && first_selected(devices@, i as nat) == Some(k as int),
                None => first_selected(devices@, i as nat) is None,
            },
        decreases devices@.len() - i,
    {
        if found.is_none() && devices[i].selected {
            found = Some(i);
        }
        i += 1;
    }
    found
}

/// The options of a compilation that says nothing of devices: those of the
/// client's selected device.
pub fn default_options(devices: &Vec<DeviceInfo>) -> (r: Result<CompileOptions, Error>)
    ensures
        match first_selected(devices@, devices@.len()) {
            Some(k) => r matches Ok(options) && options@ == local_options(devices@[k].id),
            None => r == Err::<CompileOptions, Error>(
                invalid("client has no selected compilation device"),
            ),
        },
{
    match selected_device(devices) {
        Some(k) => Ok(single_device_options(devices[k].id)),
        None => Err(err("client has no selected compilation device")),
    }
}

/// The sizes of the axes of a mesh.
pub open spec fn axis_sizes(mesh: MeshModel) -> Seq<i64> {
    Seq::new(mesh.len(), |k: int| mesh[k].1 as i64)
}

/// The identities of the first devices of a list.
pub open spec fn leading_ids(devices: Seq<DeviceInfo>, count: nat) -> Seq<i64> {
    Seq::new(count, |k: int| devices[k].id as i64)
}

/// The options of a partitioned program. With the partitioner of placement
/// constraints the automatic one is off.
pub open spec fn spmd_options(
    required: nat,
    ids: Seq<i64>,
    mesh: MeshModel,
    budget: usize,
    use_shardy: bool,
) -> OptionsModel {
    OptionsModel {
        num_replicas: 1,
        num_partitions: required as i64,
        device_ordinal: (-1int) as i64,
        replica_count: 1,
        computation_count: required as i32,
        computation_devices: ids,
        use_spmd_partitioning: true,
        use_auto_spmd_partitioning: !use_shardy,
        use_shardy_partitioner: use_shardy,
        optimization_level: Some(effort_of(budget)),
        mesh_shape: axis_sizes(mesh),
        mesh_ids: ids,
    }
}

/// The options and devices of a partitioned compilation.
#[derive(Debug)]
pub struct AutoSpmdConfig {
    pub options: CompileOptions,
    pub device_ids: Vec<i64>,
}

/// The configuration of a plan on the devices of a client, or why there is none.
pub open spec fn spmd_config(plan: Placement, devices: Seq<DeviceInfo>, use_shardy: bool) -> Result<
    (OptionsModel, Seq<i64>),
    Error,
> {
    match plan.policy {
        PolicyModel::SingleDevice => Err(
            invalid("multi-device plan requires auto-sharding policy"),
        ),
        PolicyModel::Auto { mesh, budget } => if devices.len() < plan.required() {
            Err(
                Error::MeshDevices {
                    required: plan.required() as usize,
                    available: devices.len() as usize,
                },
            )
        } else {
            let ids = leading_ids(devices, plan.required());
            Ok((spmd_options(plan.required(), ids, mesh, budget, use_shardy), ids))
        },
    }
}

/// A configuration assigns one device to each that the plan requires.
pub proof fn configurations_assign_the_required_devices(
    plan: Placement,
    devices: Seq<DeviceInfo>,
    use_shardy: bool,
)
    ensures
        spmd_config(plan, devices, use_shardy) matches Ok(config) ==> {
            &&& config.1.len() == plan.required()
            &&& config.0.computation_devices == config.1
            &&& config.0.mesh_ids == config.1
            &&& config.0.use_auto_spmd_partitioning != config.0.use_shardy_partitioner
        },
{
}

/// The sizes of the axes of a mesh.
fn mesh_shape(mesh: &Mesh) -> (r: Vec<i64>)
    ensures
        r@ == axis_sizes(mesh@),
{
    let mut sizes: Vec<i64> = Vec::new();
    let mut i: usize = 0;
    while i < mesh.axes.len()
        invariant
            i <= mesh.axes@.len(),
            sizes@ == axis_sizes(mesh@).take(i as int),
        decreases mesh.axes@.len() - i,
    {
        let size: usize = mesh.axes[i].size;
        assert(mesh@[i as int].1 == size);
        sizes.push(size as i64);
        i += 1;
        assert(sizes@ =~= axis_sizes(mesh@).take(i as int));
    }
    assert(sizes@ =~= axis_sizes(mesh@));
    sizes
}

/// The configuration of a plan on the devices of a client.
pub fn auto_spmd_config(plan: &ExecutionPlan, devices: &Vec<DeviceInfo>, use_shardy: bool) -> (r:
    Result<AutoSpmdConfig, Error>)
    ensures
        match r {
            Ok(config) => spmd_config(plan@, devices@, use_shardy) == Ok::<
                (OptionsModel, Seq<i64>),
                Error,
            >((config.options@, config.device_ids@)),
            Err(e) => spmd_config(plan@, devices@, use_shardy) == Err::<
                (OptionsModel, Seq<i64>),
                Error,
            >(e),
        },
{
    let options: &AutoShardingOptions = match plan.policy() {
        PlanningPolicy::Auto(options) => options,
        PlanningPolicy::SingleDevice => {
            return Err(err("multi-device plan requires auto-sharding policy"));
        },
    };
    let required: usize = plan.required_devices();
    if devices.len() < required {
        return Err(Error::MeshDevices { required, available: devices.len() });
    }
    let mut ids: Vec<i64> = Vec::new();
    let mut again: Vec<i64> = Vec::new();
    let mut mesh_ids: Vec<i64> = Vec::new();
    let ghost expected = leading_ids(devices@, required as nat);
    let mut i: usize = 0;
    while i < required
        invariant
            i <= required <= devices@.len(),
            expected == leading_ids(devices@, required as nat),
            ids@ == expected.take(i as int),
            again@ == expected.take(i as int),
            mesh_ids@ == expected.take(i as int),
        decreases required - i,
    {
        let id: i64 = devices[i].id as i64;
        ids.push(id);
        again.push(id);
        mesh_ids.push(id);
        i += 1;
        assert(expected.take(i as int) =~= expected.take(i - 1).push(id));
    }
    proof {
        assert(expected.take(required as int) =~= expected);
    }
    let build = CompileOptions {
        num_replicas: 1,
        num_partitions: required as i64,
        device_ordinal: -1,
        replica_count: 1,
        computation_count: required as i32,
        computation_devices: again,
        use_spmd_partitioning: true,
        use_auto_spmd_partitioning: !use_shardy,
        use_shardy_partitioner: use_shardy,
        optimization_level: Some(options.effort_level()),
        mesh_shape: mesh_shape(options.mesh()),
        mesh_ids,
    };
    Ok(AutoSpmdConfig { options: build, device_ids: ids })
}

} // verus!
