use rxla_core::compile_options::{auto_spmd_config, default_options, single_device_options};
use rxla_core::compiler::{BackendOutcome, CacheLimits, DiskRead, Elapsed};
use rxla_core::disk_cache::DeviceInfo;
use rxla_core::dlpack::{
    dtype_from_dlpack, import, DataType, DataTypeCode, DescriptorFault, ImportError, TensorView,
    HOST_DEVICE,
};
use rxla_core::dtype::DType;
use rxla_core::error::Error;
use rxla_core::graph::TensorType;
use rxla_core::listing::Listing;
use rxla_core::planning::{
    AutoShardingOptions, EffortLevel, Mesh, MeshAxis, PartitionSpec, PlanningPolicy, Sharding,
};
use rxla_core::runtime::{pending_outputs, Client, LazyOutput, Residence, Runtime};
use rxla_core::tracer::{Program, TensorFunction, Tracer};

fn device(id: i32, selected: bool) -> DeviceInfo {
    DeviceInfo {
        id,
        kind: "kind".to_owned(),
        description: "description".to_owned(),
        selected,
    }
}

fn client(handle: u64, devices: Vec<DeviceInfo>) -> Client {
    Client { handle, devices }
}

fn exp_program(sharded: Option<usize>) -> Program {
    let mut tracer = Tracer::new(1);
    let x = tracer.input(&[4]).unwrap();
    if let Some(size) = sharded {
        tracer
            .set_sharding(
                &x,
                Sharding::partitioned(
                    Mesh::line("data", size),
                    PartitionSpec {
                        axes: vec![Some("data".to_owned())],
                    },
                ),
            )
            .unwrap();
    }
    let y = x.exp(tracer.graph()).unwrap();
    tracer.program(&[y], "code").unwrap()
}

fn auto(size: usize) -> PlanningPolicy {
    PlanningPolicy::Auto(AutoShardingOptions::new(Mesh::line("data", size), 64).unwrap())
}

#[test]
fn single_device_is_a_validated_one_stage_plan() {
    let program = exp_program(None);
    let plan = program.plan(PlanningPolicy::SingleDevice).unwrap();
    assert_eq!(plan.required_devices(), 1);
    assert_eq!(plan.stages().len(), 1);
    assert_eq!(plan.stages()[0].input_count(), 1);
    assert_eq!(plan.stages()[0].output_count(), 1);
}

#[test]
fn auto_sharding_generates_a_complete_multi_device_placement() {
    let program = exp_program(Some(2));
    assert_eq!(program.lowered_program().format(), "mlir");
    assert!(program.plan(PlanningPolicy::SingleDevice).is_err());
    let plan = program.plan(auto(2)).unwrap();
    assert_eq!(plan.required_devices(), 2);
    assert!(plan.requires_spmd_partitioning());
    assert_eq!(plan.shardings().len(), 2);
    assert!(plan.shardings()[0].is_constraint());
    assert!(plan.shardings()[1].is_auto());
    assert_eq!(plan.shardings()[0].sharding().unwrap().mesh.axes[0].size, 2);
    assert_eq!(plan.shardings()[1].value(), 1);

    let prepared = program
        .planning()
        .lower_spmd(program.lowered_program(), &plan, &[0, 1])
        .ok()
        .unwrap();
    assert_eq!(prepared.code(), b"code");
    assert!(program
        .planning()
        .lower_spmd(program.lowered_program(), &plan, &[0])
        .is_err());
    assert!(program.plan(auto(4)).is_err());
}

#[test]
fn portable_search_budget_maps_monotonically_to_backend_effort() {
    for (budget, expected) in [
        (1, EffortLevel::O0),
        (17, EffortLevel::O1),
        (257, EffortLevel::O2),
        (4097, EffortLevel::O3),
    ] {
        assert_eq!(
            AutoShardingOptions::new(Mesh::line("data", 1), budget)
                .unwrap()
                .effort_level(),
            expected
        );
    }
}

#[test]
fn runtime_builder_validates_configuration_before_backend_use() {
    assert!(Runtime::builder().build().is_err());
    assert!(Runtime::builder()
        .auto_sharding(Mesh::line("data", 1), 0)
        .is_err());
}

#[test]
fn meshes_count_their_devices() {
    let axis = |name: &str, size: usize| MeshAxis {
        name: name.to_owned(),
        size,
    };
    let mesh = Mesh {
        axes: vec![axis("a", 2), axis("b", 3)],
    };
    assert_eq!(mesh.device_count().unwrap(), 6);
    let huge = Mesh {
        axes: vec![axis("a", usize::MAX), axis("b", 2)],
    };
    assert!(huge.device_count().is_err());
    assert!(exp_program(None)
        .plan(PlanningPolicy::Auto(
            AutoShardingOptions::new(huge, 1).unwrap()
        ))
        .is_err());
}

fn text(listing: &Listing<char>) -> String {
    listing.to_vec().iter().collect()
}

#[test]
fn builders_name_the_first_fault() {
    let good = || client(1, vec![device(0, true)]);
    assert!(matches!(
        Runtime::builder().backend("", good()).build(),
        Err(Error::InvalidArgument {
            message: "runtime backend name must be nonempty"
        })
    ));
    assert!(matches!(
        Runtime::builder()
            .backend("cpu", client(1, vec![device(0, false)]))
            .build(),
        Err(Error::InvalidArgument {
            message: "PJRT client has no selected device"
        })
    ));
    assert!(matches!(
        Runtime::builder()
            .backend("cpu", good())
            .backend("cpu", good())
            .build(),
        Err(Error::DuplicateBackend { name }) if text(&name) == "cpu"
    ));
    assert!(matches!(
        Runtime::builder()
            .backend("cpu", good())
            .backend("gpu", good())
            .build(),
        Err(Error::InvalidArgument {
            message: "multiple backends require a default backend"
        })
    ));
    assert!(matches!(
        Runtime::builder()
            .backend("cpu", good())
            .default_backend("tpu")
            .build(),
        Err(Error::DefaultBackendMissing { name }) if text(&name) == "tpu"
    ));
}

fn pair() -> Runtime {
    Runtime::builder()
        .backend("gpu", client(2, vec![device(10, false), device(11, true)]))
        .backend("cpu", client(1, vec![device(0, true)]))
        .default_backend("gpu")
        .build()
        .ok()
        .unwrap()
}

#[test]
fn backends_are_listed_by_name() {
    let mut runtime = pair();
    assert_eq!(runtime.backend_names(), ["cpu", "gpu"]);
    assert_eq!(runtime.default_device().backend(), "gpu");
    assert_eq!(runtime.default_device().ordinal(), 1);
    assert_eq!(runtime.default_device().id(), 11);
    assert_eq!(runtime.default_device().kind(), "kind");
    assert_eq!(runtime.client(), 2);
    let cpu = runtime.devices("cpu").unwrap()[0].duplicate();
    runtime.set_default_device(&cpu).unwrap();
    assert_eq!(runtime.client(), 1);
    assert!(matches!(
        runtime.devices("tpu"),
        Err(Error::BackendNotRegistered { name }) if text(&name) == "tpu"
    ));
    let mut other = Runtime::new(client(9, vec![device(5, true)]));
    assert!(matches!(
        other.set_default_device(&cpu),
        Err(Error::BackendNotRegistered { name }) if text(&name) == "cpu"
    ));
    let foreign = other.default_device().duplicate();
    assert!(runtime.on(&foreign).is_err());
    let renumbered = Runtime::builder()
        .backend("cpu", client(1, vec![device(7, true)]))
        .build()
        .ok()
        .unwrap();
    assert!(matches!(
        runtime.set_default_device(renumbered.default_device()),
        Err(Error::ForeignDevice { device })
            if text(&device.backend) == "cpu"
                && text(&device.kind) == "kind"
                && device.ordinal == 0
                && device.id == 7
    ));
    assert_eq!(runtime.on(&cpu).ok().unwrap().client(), 1);
}

fn built(executable: u64) -> BackendOutcome {
    BackendOutcome {
        disk: DiskRead::Absent,
        elapsed: Elapsed { secs: 0, nanos: 1 },
        compiled: Ok(executable),
        store_failed: false,
    }
}

#[test]
fn compilations_go_to_the_backend_of_the_device() {
    let mut runtime = pair();
    let program = exp_program(None);
    let cpu = runtime.devices("cpu").unwrap()[0].duplicate();
    let request = runtime.compile_request(&cpu, &program).unwrap();
    assert_eq!(request.backend, 0);
    assert_eq!(request.options.computation_devices, [0]);
    assert_eq!(request.options.num_partitions, 1);
    assert_eq!(
        runtime.compile_on(&cpu, &program, b"o", built(3)).unwrap(),
        3
    );
    assert_eq!(runtime.compile(&program, b"o", built(4)).unwrap(), 4);
    assert_eq!(
        runtime.compile_on(&cpu, &program, b"o", built(9)).unwrap(),
        3
    );
    assert_eq!(runtime.stats().misses, 1);
    assert_eq!(runtime.stats_on(&cpu).unwrap().hits, 1);
    {
        let mut view = runtime.on(&cpu).ok().unwrap();
        assert_eq!(view.compile(&program, b"p", built(5)).unwrap(), 5);
        assert_eq!(view.stats().entries, 2);
    }
    runtime.clear();
    assert_eq!(runtime.stats_on(&cpu).unwrap().entries, 0);
    assert_eq!(runtime.stats_on(&cpu).unwrap().misses, 2);
}

#[test]
fn partitioned_compilations_use_the_mesh() {
    let devices = vec![device(3, true), device(4, false), device(5, false)];
    let runtime = Runtime::with_planning_policy(client(1, devices), CacheLimits::default(), auto(2));
    let request = runtime
        .compile_request(runtime.default_device(), &exp_program(None))
        .unwrap();
    assert_eq!(request.options.computation_devices, [3, 4]);
    assert_eq!(request.options.num_partitions, 2);
    assert_eq!(request.options.device_ordinal, -1);
    assert!(request.options.use_spmd_partitioning);
    assert!(request.options.use_auto_spmd_partitioning);
    assert!(!request.options.use_shardy_partitioner);
    assert_eq!(request.options.optimization_level, Some(EffortLevel::O1));
    assert_eq!(request.options.mesh_shape, [2]);
    assert_eq!(request.options.mesh_ids, [3, 4]);
    let request = runtime
        .compile_request(runtime.default_device(), &exp_program(Some(2)))
        .unwrap();
    assert!(request.options.use_shardy_partitioner);
    assert!(!request.options.use_auto_spmd_partitioning);
    let small = Runtime::with_planning_policy(
        client(1, vec![device(3, true)]),
        CacheLimits::default(),
        auto(2),
    );
    assert!(matches!(
        small.compile_request(small.default_device(), &exp_program(None)),
        Err(Error::MeshDevices {
            required: 2,
            available: 1
        })
    ));
    let local = exp_program(None).plan(PlanningPolicy::SingleDevice).unwrap();
    assert!(auto_spmd_config(&local, &vec![device(3, true)], false).is_err());
    assert_eq!(single_device_options(6).computation_devices, [6]);
    assert_eq!(
        default_options(&vec![device(1, false), device(2, true)])
            .unwrap()
            .computation_devices,
        [2]
    );
    assert!(default_options(&vec![]).is_err());
}

fn ty(dims: &[i64], dtype: DType) -> TensorType {
    TensorType {
        dims: dims.to_vec(),
        dtype,
    }
}

#[test]
fn runs_check_their_inputs() {
    let runtime = pair();
    let program = exp_program(None);
    assert_eq!(runtime.run(&program, 1, Ok(7)).unwrap(), 7);
    assert!(matches!(
        runtime.run(&program, 2, Ok(7)),
        Err(Error::InvalidArgument {
            message: "input count mismatch"
        })
    ));
    let mut tracer = Tracer::new(3);
    let i = tracer.input_i32(&[2]).unwrap();
    let integers = tracer.program(&[i], "").unwrap();
    assert!(matches!(
        runtime.run(&integers, 1, Ok(7)),
        Err(Error::InvalidArgument {
            message: "non-F32 inputs require run_buffers"
        })
    ));
    let here = Residence {
        client: 2,
        ordinal: 1,
    };
    let there = Residence {
        client: 2,
        ordinal: 0,
    };
    let device = runtime.default_device();
    assert!(runtime.check_run_on(device, &program, 1).is_ok());
    assert!(runtime.check_run_on(device, &program, 2).is_err());
    assert!(runtime.check_run_on(device, &integers, 1).is_err());
    assert!(runtime.check_run_buffers_on(device, &[here]).is_ok());
    assert!(matches!(
        runtime.check_run_buffers_on(device, &[here, there]),
        Err(Error::InputNotResident { index: 1, device }) if device.ordinal == 1
    ));
    let typed = [ty(&[4], DType::F32)];
    assert!(runtime.check_run_tensors_on(device, &program, &typed).is_ok());
    assert!(runtime.check_run_tensors_on(device, &program, &[]).is_err());
    assert!(runtime.run_buffers(&[here, here], Ok(())).is_ok());
    assert!(matches!(
        runtime.run_buffers(&[here, there], Ok(())),
        Err(Error::InputNotResident { index: 1, device }) if device.ordinal == 1
    ));
    assert!(runtime
        .run_tensors(&program, &[ty(&[4], DType::F32)], Ok(()))
        .is_ok());
    assert!(matches!(
        runtime.run_tensors(&program, &[ty(&[3], DType::F32)], Ok(())),
        Err(Error::InputMetadata { index: 0 })
    ));
    let mut tracer = Tracer::new(4);
    let x = tracer.input(&[4]).unwrap();
    let function = TensorFunction::new(&tracer, &x, "").unwrap();
    assert!(function.check_call(&runtime, &ty(&[4], DType::F32)).is_ok());
    assert!(function.check_call(&runtime, &ty(&[5], DType::F32)).is_err());
    assert_eq!(
        function
            .call(&runtime, &ty(&[4], DType::F32), Ok(vec![5, 6]))
            .unwrap(),
        5
    );
    assert!(function
        .call::<u8>(&runtime, &ty(&[4], DType::F32), Ok(vec![]))
        .is_err());
}

#[test]
fn evaluations_collect_pending_tensors_of_one_trace() {
    let lazy = |graph: u64, materialized: bool| LazyOutput {
        graph,
        materialized,
    };
    assert!(pending_outputs(&[]).unwrap().is_empty());
    assert!(pending_outputs(&[lazy(1, true), lazy(2, true)])
        .unwrap()
        .is_empty());
    assert_eq!(
        pending_outputs(&[lazy(2, true), lazy(1, false), lazy(1, false)]).unwrap(),
        [1, 2]
    );
    assert!(matches!(
        pending_outputs(&[lazy(2, false), lazy(1, false)]),
        Err(Error::LazySessionMismatch)
    ));
}

fn foreign(code: DataTypeCode, bits: u8, lanes: u16) -> DataType {
    DataType { code, bits, lanes }
}

fn foreign_view() -> TensorView {
    TensorView {
        device_type: HOST_DEVICE,
        dtype: foreign(DataTypeCode::Uint, 8, 1),
        shape: vec![1, 2, 3],
        strides: Some(vec![6, 3, 1]),
        num_bytes: 6,
        data_fault: None,
    }
}

#[test]
fn foreign_element_types_have_counterparts() {
    for (code, bits, expected) in [
        (DataTypeCode::Uint, 8, DType::U8),
        (DataTypeCode::Float, 16, DType::F16),
        (DataTypeCode::Float, 32, DType::F32),
        (DataTypeCode::Int, 32, DType::I32),
        (DataTypeCode::Bfloat, 16, DType::BF16),
    ] {
        assert_eq!(dtype_from_dlpack(foreign(code, bits, 1)), Ok(expected));
    }
    assert_eq!(
        dtype_from_dlpack(foreign(DataTypeCode::Float, 64, 1)),
        Err(ImportError::UnsupportedDType { dtype: foreign(DataTypeCode::Float, 64, 1) })
    );
    assert_eq!(
        dtype_from_dlpack(foreign(DataTypeCode::Float, 64, 4)),
        Err(ImportError::VectorDType)
    );
    assert_eq!(
        dtype_from_dlpack(foreign(DataTypeCode::Other(6), 8, 1)),
        Err(ImportError::UnsupportedDType { dtype: foreign(DataTypeCode::Other(6), 8, 1) })
    );
}

#[test]
fn foreign_tensors_are_checked_in_order() {
    let tensor = import(Ok(foreign_view())).unwrap();
    assert_eq!(tensor.shape, [1, 2, 3]);
    assert_eq!(tensor.dtype, DType::U8);
    assert_eq!(tensor.num_bytes, 6);
    let refused = |change: fn(&mut TensorView)| {
        let mut view = foreign_view();
        change(&mut view);
        import(Ok(view)).err().unwrap()
    };
    let descriptor = |source: DescriptorFault| ImportError::InvalidDescriptor { source };
    assert_eq!(
        import(Err("ndim is negative: -1".to_owned())).err(),
        Some(descriptor(DescriptorFault::Reported {
            text: "ndim is negative: -1".to_owned()
        }))
    );
    assert_eq!(
        refused(|v| v.device_type = 2),
        ImportError::UnsupportedDevice { device_type: 2 }
    );
    assert_eq!(refused(|v| v.dtype.lanes = 2), ImportError::VectorDType);
    assert_eq!(
        refused(|v| v.strides = Some(vec![3, 1])),
        descriptor(DescriptorFault::MismatchedStrides { shape_len: 3, strides_len: 2 })
    );
    assert_eq!(
        refused(|v| v.shape = vec![1, -4, -5]),
        descriptor(DescriptorFault::NegativeDimension { axis: 1, value: -4 })
    );
    assert_eq!(
        refused(|v| v.shape = vec![i64::MAX, 2, 1]),
        descriptor(DescriptorFault::NumElementsOverflow)
    );
    assert_eq!(
        refused(|v| v.strides = Some(vec![6, 1, 2])),
        ImportError::NonCompact
    );
    let mut bare = foreign_view();
    bare.strides = None;
    assert!(import(Ok(bare)).is_ok());
    let mut empty = foreign_view();
    empty.shape[1] = 0;
    empty.strides = Some(vec![9, 9, 9]);
    assert!(import(Ok(empty)).is_ok());
    assert_eq!(
        refused(|v| v.data_fault = Some("null".to_owned())),
        ImportError::InvalidData { source: "null".to_owned() }
    );
}

#[test]
fn graphs_compile_on_the_selected_device() {
    let mut tracer = Tracer::new(1);
    let x = tracer.input(&[4]).unwrap();
    let y = x.exp(tracer.graph()).unwrap();
    let unselected = client(9, vec![device(0, false)]);
    assert!(matches!(
        tracer.compile(&unselected, &y, "code", Ok(5)),
        Err(Error::InvalidArgument { message: "client has no selected compilation device" })
    ));
    let selected = client(9, vec![device(0, false), device(1, true)]);
    let executable = tracer.compile(&selected, &y, "code", Ok(5)).ok().unwrap();
    assert_eq!(executable.handle(), 5);
    assert_eq!(executable.client(), 9);
    assert_eq!(executable.device_count(), 1);
    assert_eq!(executable.input_count(), 1);
    assert_eq!(executable.output_count(), 1);
    let failure = Error::InvalidArgument { message: "compiler" };
    assert!(matches!(
        tracer.compile_many(&selected, &[y.clone(), x], "code", Err(failure)),
        Err(Error::InvalidArgument { message: "compiler" })
    ));
    assert!(tracer.compile_many(&selected, &[], "code", Ok(5)).is_err());
    assert_eq!(tracer.stablehlo(&y, Ok("text".to_owned())).unwrap(), "text");
    assert!(matches!(
        tracer.stablehlo_many(&[], Ok("text".to_owned())),
        Err(Error::InvalidArgument { message: "at least one output is required" })
    ));
    let mut other = Tracer::new(2);
    let foreign = other.input(&[4]).unwrap();
    assert!(matches!(
        tracer.stablehlo(&foreign, Ok("text".to_owned())),
        Err(Error::InvalidArgument { message: "output belongs to another graph" })
    ));
    assert!(matches!(
        tracer.compile(&selected, &foreign, "code", Ok(5)),
        Err(Error::InvalidArgument { message: "output belongs to another graph" })
    ));
}

#[test]
fn programs_run_through_their_runtime() {
    let mut runtime = pair();
    let program = exp_program(None);
    assert_eq!(program.compile(&mut runtime, b"options", built(8)).unwrap(), 8);
    assert_eq!(program.run(&runtime, 1, Ok(3u8)).unwrap(), 3);
    assert!(program.run(&runtime, 2, Ok(3u8)).is_err());
    assert_eq!(program.run_tensors(&runtime, &[ty(&[4], DType::F32)], Ok(3u8)).unwrap(), 3);
    assert!(matches!(
        program.run_tensors(&runtime, &[ty(&[5], DType::F32)], Ok(3u8)),
        Err(Error::InputMetadata { index: 0 })
    ));
    let elsewhere = Residence { client: 999, ordinal: 0 };
    assert!(matches!(
        program.run_buffers(&runtime, &[elsewhere], Ok(3u8)),
        Err(Error::InputNotResident { index: 0, device }) if text(&device.backend) == "gpu"
    ));
    let mut tracer = Tracer::new(1);
    let x = tracer.input(&[4]).unwrap();
    let y = x.exp(tracer.graph()).unwrap();
    let function = TensorFunction::new(&tracer, &y, "other").ok().unwrap();
    assert_eq!(function.compile(&mut runtime, b"options", built(9)).unwrap(), 9);
    assert_eq!(function.compile(&mut runtime, b"options", built(10)).unwrap(), 9);
}

fn assert_send<T: Send>() {}

#[test]
fn runtime_can_be_owned_by_a_worker_thread() {
    assert_send::<Runtime>();
}
