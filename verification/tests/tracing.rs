use rxla_core::dtype::DType;
use rxla_core::error::{Error, IrError};
use rxla_core::graph::{Graph, Tensor, TensorType};
use rxla_core::op::{Conv2dOptions, Op, Scalar};
use rxla_core::planning::{Mesh, PartitionSpec, PlanningPolicy, Sharding};
use rxla_core::resize::LinearSamples;
use rxla_core::state::StateGraph;
use rxla_core::tracer::{Program, TensorFunction, Tracer};

fn bits(value: f32) -> u32 {
    value.to_bits()
}

fn scalar(value: f32) -> Scalar {
    Scalar::Bits(value.to_bits())
}

fn scalars(values: &[f32]) -> Vec<Scalar> {
    values.iter().map(|value| scalar(*value)).collect()
}

/// Half-pixel sample positions along one axis.
fn samples(input: i64, output: i64) -> LinearSamples {
    let scale = input as f64 / output as f64;
    let mut lower = Vec::new();
    let mut upper = Vec::new();
    let mut weight = Vec::new();
    for coordinate in 0..output {
        let source = ((coordinate as f64 + 0.5) * scale - 0.5).clamp(0.0, input as f64 - 1.0);
        let low = source.floor() as i64;
        lower.push(low as i32);
        upper.push((low + 1).min(input - 1) as i32);
        weight.push(((source - low as f64) as f32).to_bits());
    }
    LinearSamples { lower, upper, weight }
}

#[test]
fn inplace_tensor_handles_preserve_alias_ssa_values() {
    let mut g = Graph::new(1);
    let mut base = g.constant(&[4, 2], &scalars(&[0.0; 8])).unwrap();
    let alias = base.clone();
    let update = g.constant(&[1, 2], &scalars(&[7.0, 8.0])).unwrap();
    let row = g.scalar_i32(2).unwrap();
    let column = g.scalar_i32(0).unwrap();
    base.slice_copy_(&mut g, &update, &[row, column]).unwrap();

    assert_ne!(base.node_id(), alias.node_id());

    let mut scatter_base = g.constant(&[4, 2], &scalars(&[0.0; 8])).unwrap();
    let scatter_alias = scatter_base.clone();
    let indices = g.constant_i32(&[3], &[1, 1, 3]).unwrap();
    let updates = g.constant(&[3, 2], &scalars(&[1.0; 6])).unwrap();
    scatter_base.index_add_(&mut g, 0, &indices, &updates).unwrap();
    assert_ne!(scatter_base.node_id(), scatter_alias.node_id());
    assert_eq!(scatter_base.shape(), [4, 2]);
    assert_eq!(alias.shape(), [4, 2]);
}

#[test]
fn operators_build_fallible_lazy_expressions_without_consuming_inputs() {
    let mut g = Graph::new(1);
    let x = g.constant(&[2], &scalars(&[1.0, 2.0])).unwrap();
    let y = g.constant(&[2], &scalars(&[3.0, 4.0])).unwrap();
    let sum = x.add(&mut g, &y).unwrap();
    let z = sum.mul(&mut g, &x).unwrap();
    assert_eq!(z.shape(), [2]);
    assert!(matches!(g.node_at(z.node_id()).op, Op::Binary(_)));
    assert!(x.add_scalar(&mut g, scalar(1.0)).is_ok());
    assert!(y.neg(&mut g).is_ok());
}

#[test]
fn unsupported_rule_does_not_append_partial_gradients() {
    let mut graph = Graph::new(1);
    let x = graph.input(&[2]).unwrap();
    let mask = x.is_finite_mask(&mut graph).unwrap();
    let total = mask.sum(&mut graph, &[0], false).unwrap();
    let loss = total.exp(&mut graph).unwrap();
    let count = graph.len();
    assert!(loss.grad(&mut graph, &[x]).is_err());
    assert_eq!(graph.len(), count);
}

#[test]
fn byte_preprocessing_is_a_nondifferentiable_data_boundary() {
    let mut graph = Graph::new(1);
    let bytes = graph.input_dtype(&[2], DType::U8).unwrap();
    let weight = graph.input(&[2]).unwrap();
    let loss = bytes
        .cast(&mut graph, DType::F32)
        .unwrap()
        .mul(&mut graph, &weight)
        .unwrap()
        .sum(&mut graph, &[0], false)
        .unwrap();
    let gradient = loss.grad(&mut graph, &[weight]).unwrap().remove(0);
    assert_eq!(gradient.dtype(), DType::F32);
    let lowered = graph.prepare(&gradient, "").unwrap();
    assert_eq!(lowered.input_spec(0).unwrap().dtype, DType::U8);
    assert_eq!(lowered.output_spec(0).unwrap().dtype, DType::F32);
}

#[test]
fn chained_augmentation_lowers_without_a_runtime() {
    let mut tracer = Tracer::new(1);
    let image = tracer.input_dtype(&[1, 8, 10, 3], DType::U8).unwrap();
    let g = tracer.graph();
    let output = image
        .cast(g, DType::F32)
        .unwrap()
        .mul_scalar(g, scalar(1.0 / 255.0))
        .unwrap()
        .resize_bilinear2d(g, (7, 9), &samples(8, 7), &samples(10, 9))
        .unwrap()
        .center_crop(g, (6, 6))
        .unwrap()
        .flip_left_right(g)
        .unwrap()
        .adjust_brightness(g, bits(0.05))
        .unwrap()
        .adjust_contrast(g, bits(1.1))
        .unwrap()
        .normalize_nhwc(
            g,
            &[bits(0.485), bits(0.456), bits(0.406)],
            &[bits(0.229), bits(0.224), bits(0.225)],
        )
        .unwrap();
    let program = output.program(&tracer, "module {}").unwrap();
    let lowered = program.lowered_program();
    assert_eq!(lowered.format(), "mlir");
    assert_eq!(lowered.input_count(), 1);
    assert_eq!(lowered.input_spec(0).unwrap().dtype, DType::U8);
    assert_eq!(lowered.output_spec(0).unwrap().shape, [1, 6, 6, 3]);
    assert_eq!(lowered.code(), b"module {}");
    let mut gathers = 0;
    let mut reductions = 0;
    let mut reversals = 0;
    for at in 0..tracer.dataflow().len() {
        match &tracer.dataflow().node_at(at).op {
            Op::Take { .. } => gathers += 1,
            Op::Reduce { .. } => reductions += 1,
            Op::Reverse { .. } => reversals += 1,
            _ => {}
        }
    }
    assert_eq!(gathers, 4);
    assert!(reductions >= 1);
    assert_eq!(reversals, 1);
}

#[test]
fn tracer_builds_common_programs_directly_in_pliron() {
    let mut tracer = Tracer::new(1);
    let x = tracer.input(&[2]).unwrap();
    let bias = tracer.constant(&[2], &scalars(&[1., 2.])).unwrap();
    let output = x.add(tracer.graph(), &bias).unwrap();
    let program = tracer.program(&[output], "").unwrap();
    assert_eq!(program.lowered_program().format(), "mlir");

    let mut tracer = Tracer::new(2);
    let lhs = tracer.input(&[2, 2]).unwrap();
    let rhs = tracer.input(&[2, 2]).unwrap();
    let zero = tracer.constant(&[], &scalars(&[0.])).unwrap();
    let g = tracer.graph();
    let matmul = lhs.matmul(g, &rhs).unwrap();
    let transposed = matmul.transpose(g, &[1, 0]).unwrap();
    let reversed = transposed.flip(g, &[0]).unwrap();
    let cumulative = reversed.cumsum(g, 0).unwrap();
    let slice = cumulative.narrow(g, 0, 0, 1).unwrap();
    let padded = slice.pad(g, &[(1, 1), (0, 0)], scalar(0.)).unwrap();
    let concatenated = Tensor::concatenate(g, &[padded.clone(), padded], 0).unwrap();
    let finite = concatenated.is_finite_mask(g).unwrap();
    let zero = zero.broadcast_to(g, concatenated.shape()).unwrap();
    let positive = concatenated.gt_mask(g, &zero).unwrap();
    let selected = finite.select(g, &positive, &zero).unwrap();
    let maximum = selected.argmax(g, 0, false).unwrap();
    assert_eq!(maximum.shape(), [2]);
    assert_eq!(maximum.dtype(), DType::I32);
    let program = tracer.program(&[maximum], "").unwrap();
    assert_eq!(program.lowered_program().format(), "mlir");
}

#[test]
fn tracer_rejects_unmigrated_training_ops_without_falling_back() {
    let mut tracer = Tracer::new(1);
    let input = tracer.input(&[1, 2, 2, 1]).unwrap();
    let kernel = tracer.input(&[1, 1, 1, 1]).unwrap();
    let error = tracer
        .graph()
        .push_node(
            Op::Conv2dInputGradient(Conv2dOptions::default()),
            vec![input.node_id(), kernel.node_id()],
            TensorType {
                dims: vec![1, 2, 2, 1],
                dtype: DType::F32,
            },
        )
        .err()
        .unwrap();
    assert!(matches!(
        error,
        Error::Ir {
            source: IrError::UnsupportedOperation { .. }
        }
    ));
    assert_eq!(tracer.dataflow().len(), 2);
}

#[test]
fn common_elementwise_trace_stays_native_pliron() {
    let mut tracer = Tracer::new(1);
    let x = tracer.input(&[2]).unwrap();
    let y = tracer.input(&[2]).unwrap();
    let g = tracer.graph();
    let output = x
        .exp(g)
        .unwrap()
        .add(g, &y)
        .unwrap()
        .tanh(g)
        .unwrap()
        .reshape(g, &[1, 2])
        .unwrap();
    tracer.program(&[output], "").unwrap();
}

#[test]
fn attention_forward_stays_native_pliron() {
    let mut tracer = Tracer::new(1);
    let query = tracer.input(&[2, 3, 4]).unwrap();
    let key = tracer.input(&[2, 5, 4]).unwrap();
    let value = tracer.input(&[2, 5, 6]).unwrap();
    let output = query
        .scaled_dot_product_attention(tracer.graph(), &key, &value, None, None)
        .unwrap();
    assert_eq!(output.shape(), [2, 3, 6]);
    let graph = tracer.dataflow();
    assert!((0..graph.len()).any(|at| matches!(graph.node_at(at).op, Op::Attention { .. })));
    let program = tracer.program(&[output], "").unwrap();
    assert_eq!(program.lowered_program().format(), "mlir");
    assert_eq!(program.input_count(), 3);
}

#[test]
fn convolution_forward_stays_native_pliron() {
    let mut tracer = Tracer::new(1);
    let input = tracer.input(&[1, 5, 6, 4]).unwrap();
    let kernel = tracer.input(&[2, 3, 2, 6]).unwrap();
    let output = input
        .conv2d(
            tracer.graph(),
            &kernel,
            Conv2dOptions {
                strides: (2, 1),
                padding: ((1, 0), (0, 1)),
                dilation: (1, 2),
                groups: 2,
            },
        )
        .unwrap();
    assert_eq!(output.shape(), [1, 3, 3, 6]);
    assert!(matches!(
        tracer.dataflow().node_at(output.node_id()).op,
        Op::Conv2d(_)
    ));
    let program = tracer.program(&[output], "").unwrap();
    assert_eq!(program.lowered_program().format(), "mlir");
}

#[test]
fn unet_style_residual_block_stays_native_pliron() {
    let mut tracer = Tracer::new(1);
    let input = tracer.input(&[1, 4, 4, 4]).unwrap();
    let first_kernel = tracer.input(&[3, 3, 4, 4]).unwrap();
    let second_kernel = tracer.input(&[3, 3, 4, 4]).unwrap();
    let convolution = Conv2dOptions {
        padding: ((1, 1), (1, 1)),
        ..Default::default()
    };
    let g = tracer.graph();
    let hidden = input
        .conv2d(g, &first_kernel, convolution)
        .unwrap()
        .transpose(g, &[0, 3, 1, 2])
        .unwrap()
        .group_norm(g, 2, None, None, bits(1e-5))
        .unwrap()
        .transpose(g, &[0, 2, 3, 1])
        .unwrap()
        .silu(g)
        .unwrap()
        .conv2d(g, &second_kernel, convolution)
        .unwrap();
    let output = hidden.add(g, &input).unwrap();

    assert_eq!(output.shape(), [1, 4, 4, 4]);
    tracer.program(&[output], "").unwrap();
}

#[test]
fn tracing_facade_hides_graph_from_program_users() {
    let mut trace = Tracer::new(1);
    let x = trace.input(&[2]).unwrap();
    let one = trace.constant(&[2], &scalars(&[1.0, 1.0])).unwrap();
    let sum = x.add(trace.graph(), &one).unwrap();
    let program = trace.program(&[sum], "").unwrap();

    assert_eq!(program.input_count(), 1);
    assert_eq!(program.output_count(), 1);
    assert_eq!(program.output_spec(0).unwrap().shape, &[2]);
    assert_eq!(program.output_spec(0).unwrap().dtype, DType::F32);
}

#[test]
fn program_is_a_snapshot_and_does_not_retain_the_tracing_graph() {
    let mut tracer = Tracer::new(1);
    let x = tracer.input(&[2]).unwrap();
    let program = tracer.program(&[x], "").unwrap();
    drop(tracer);
    assert_eq!(program.input_count(), 1);
}

fn data_mesh(size: usize) -> Mesh {
    Mesh::line("data", size)
}

fn split(names: &[Option<&str>]) -> PartitionSpec {
    PartitionSpec {
        axes: names.iter().map(|name| name.map(str::to_owned)).collect(),
    }
}

#[test]
fn native_program_prunes_and_renumbers_unreachable_pliron_values() {
    let mut tracer = Tracer::new(1);
    let unused = tracer.input(&[4]).unwrap();
    tracer
        .set_sharding(
            &unused,
            Sharding::partitioned(data_mesh(2), split(&[Some("data")])),
        )
        .unwrap();
    let used = tracer.input(&[2]).unwrap();
    let output = used.exp(tracer.graph()).unwrap();
    let program = tracer.program(&[output], "").unwrap();

    assert_eq!(program.input_count(), 1);
    assert_eq!(program.input_spec(0).unwrap().shape, &[2]);
    assert!(program.plan(PlanningPolicy::SingleDevice).is_ok());
    assert!(program.planning().constraints.is_empty());
    assert_eq!(program.planning().value_count, 2);
}

#[test]
fn program_retains_pre_lowering_sharding_constraints() {
    let mut tracer = Tracer::new(1);
    let x = tracer.input(&[4, 2]).unwrap();
    tracer
        .set_sharding(
            &x,
            Sharding::partitioned(data_mesh(2), split(&[Some("data"), None])),
        )
        .unwrap();
    let y = x.exp(tracer.graph()).unwrap();
    tracer
        .set_sharding(&y, Sharding::replicated(data_mesh(2)))
        .unwrap();
    let program = tracer.program(&[y], "").unwrap();

    assert_eq!(program.input_count(), 1);
    assert_eq!(program.output_count(), 1);
    assert_eq!(program.planning().constraints.len(), 2);
    assert_eq!(program.planning().constraints[0].value, 0);
    assert_eq!(program.planning().constraints[1].value, 1);
}

#[test]
fn a_later_placement_replaces_an_earlier_one() {
    let mut tracer = Tracer::new(1);
    let x = tracer.input(&[4]).unwrap();
    tracer
        .set_sharding(&x, Sharding::replicated(data_mesh(2)))
        .unwrap();
    tracer
        .set_sharding(&x, Sharding::replicated(data_mesh(4)))
        .unwrap();
    assert_eq!(tracer.sharding(&x).unwrap().mesh.axes[0].size, 4);
    let mut other = Tracer::new(2);
    let foreign = other.input(&[4]).unwrap();
    assert!(matches!(
        tracer.set_sharding(&foreign, Sharding::replicated(data_mesh(2))),
        Err(Error::InvalidArgument {
            message: "invalid tensor expression node"
        })
    ));
}

#[test]
fn programs_need_outputs_of_one_trace() {
    let mut tracer = Tracer::new(1);
    let mut other = Tracer::new(2);
    let x = tracer.input(&[2]).unwrap();
    let y = other.input(&[2]).unwrap();
    assert!(matches!(
        Program::from_tensors(&tracer, &[], ""),
        Err(Error::InvalidArgument {
            message: "program requires at least one Tensor output"
        })
    ));
    assert!(matches!(
        Program::from_tensors(&tracer, &[x.clone(), y.clone()], ""),
        Err(Error::InvalidArgument {
            message: "program outputs belong to different lazy traces"
        })
    ));
    assert!(matches!(
        Program::from_tensors(&tracer, &[y], ""),
        Err(Error::InvalidArgument {
            message: "output belongs to another graph"
        })
    ));
    let function = TensorFunction::new(&tracer, &x, "code").unwrap();
    assert_eq!(function.program().lowered_program().code(), b"code");
}

#[test]
fn preparation_needs_an_output() {
    let mut graph = Graph::new(1);
    let unused = graph.input(&[3]).unwrap();
    let used = graph.input(&[2]).unwrap();
    assert!(matches!(
        graph.prepare_many(&[], ""),
        Err(Error::InvalidArgument {
            message: "program requires at least one output"
        })
    ));
    let whole = graph.prepare_many(&[used.clone()], "").unwrap();
    assert_eq!(whole.input_count(), 2);
    let (pruned, parameters) = graph.prepare_pruned(&[used], "").unwrap();
    assert_eq!(pruned.input_count(), 1);
    assert_eq!(parameters, [1]);
    assert_eq!(unused.node_id(), 0);
    assert!(graph.stablehlo_many(&[], Ok(String::new())).is_err());
}

#[test]
fn linear_training_graph_is_built_in_pliron() {
    let mut graph = StateGraph::new(1);
    let input = graph.input(&[2, 3]).unwrap();
    let weight = graph.trainable_parameter(&[3, 1]).unwrap();
    let g = graph.tracer();
    let loss = input
        .matmul(g, weight.tensor())
        .unwrap()
        .sum(g, &[0, 1], false)
        .unwrap();
    let gradient = loss.grad(g, &[weight.tensor().clone()]).unwrap().remove(0);
    assert_eq!(gradient.shape(), [3, 1]);
    assert!(matches!(
        graph.dataflow().node_at(gradient.node_id()).op,
        Op::Matmul { .. }
    ));
}

#[test]
fn pruned_state_abi_uses_pliron_parameter_numbers() {
    let mut graph = StateGraph::new(1);
    let _unused = graph.parameter(&[2]).unwrap();
    let used = graph.parameter(&[2]).unwrap();
    let output = used.tensor().add(graph.tracer(), used.tensor()).unwrap();
    let (lowered, parameters) = graph.dataflow().prepare_pruned(&[output], "").unwrap();
    assert_eq!(lowered.format(), "mlir");
    assert_eq!(parameters, [1]);
    assert_eq!(lowered.input_count(), 1);
}

#[test]
fn refused_operand_types_are_listed() {
    let mut g = Graph::new(1);
    let x = g.input(&[2]).unwrap();
    let i = g.constant_i32(&[2], &[1, 2]).unwrap();
    assert!(matches!(
        x.add(&mut g, &i),
        Err(Error::UnsupportedOperandTypes { operation: "Binary", types })
            if types.to_vec() == [DType::F32, DType::I32]
    ));
    assert!(matches!(
        i.exp(&mut g),
        Err(Error::UnsupportedOperandTypes { operation: "Unary", types })
            if types.to_vec() == [DType::I32]
    ));
}
