use rxla_core::error::Error;
use rxla_core::dtype::DType;
use rxla_core::graph::{Graph, Tensor};
use rxla_core::kv_cache::KvCache;
use rxla_core::op::Scalar;
use rxla_core::plan::input_parameters;
use rxla_core::session::{check_host_payloads, Buffer};
use rxla_core::state::{Argument, StateGraph, StateSlot};

fn scalars(values: &[f32]) -> Vec<Scalar> {
    values
        .iter()
        .map(|value| Scalar::Bits(value.to_bits()))
        .collect()
}

fn buffer(handle: u64, dtype: DType, dims: &[i64]) -> Buffer {
    Buffer {
        handle,
        client: 5,
        dtype,
        dims: dims.to_vec(),
    }
}

#[test]
fn rejected_pair_preserves_both_versions() {
    let mut g = StateGraph::new(1);
    let mut cache = KvCache::new(&mut g, &[4, 2]).unwrap();
    let (old_k, old_v) = cache.read(&g).unwrap();
    let good = g.input(&[1, 2]).unwrap();
    let wrong = g.input(&[1, 1]).unwrap();
    let oversized = g.input(&[5, 2]).unwrap();
    let starts = [g.scalar_i32(1).unwrap(), g.scalar_i32(0).unwrap()];
    let mut other = StateGraph::new(2);
    let foreign = other.input(&[1, 2]).unwrap();
    let foreign_start = other.scalar_i32(0).unwrap();
    let mixed = [foreign_start, starts[1].clone()];
    for (k, v, indices) in [
        (&good, &wrong, starts.as_slice()),
        (&good, &foreign, starts.as_slice()),
        (&oversized, &oversized, starts.as_slice()),
        (&good, &good, &starts[..1]),
        (&good, &good, mixed.as_slice()),
    ] {
        assert!(cache.update_at(&mut g, k, v, indices).is_err());
        assert!(cache.update_at_checked(&mut g, k, v, indices).is_err());
        let (k, v) = cache.read(&g).unwrap();
        assert_eq!(
            (k.node_id(), v.node_id()),
            (old_k.node_id(), old_v.node_id())
        );
    }
    assert!(cache.read(&other).is_err());
    assert!(cache
        .update_at(&mut other, &foreign, &foreign, &starts)
        .is_err());
    let (k, v) = cache.update_at(&mut g, &good, &good, &starts).unwrap();
    let (actual_k, actual_v) = cache.read(&g).unwrap();
    assert_eq!(actual_k.shape(), k.shape());
    assert_eq!(actual_v.shape(), v.shape());
    assert_ne!(actual_k.node_id(), old_k.node_id());
    assert_ne!(actual_v.node_id(), old_v.node_id());
    assert_ne!(k.node_id(), old_k.node_id());
    assert_ne!(v.node_id(), old_v.node_id());
}

#[test]
fn conditional_update_validation_preserves_all_versions() {
    let mut g = StateGraph::new(1);
    let a = g.state(&[2]).unwrap();
    let b = g.state_i32(&[]).unwrap();
    let old_a = g.read(&a).unwrap();
    let old_b = g.read(&b).unwrap();
    let yes = g.constant(&[], &scalars(&[1.])).unwrap();
    let good = g.constant(&[2], &scalars(&[5., 6.])).unwrap();
    let wrong = g.constant(&[], &scalars(&[1.])).unwrap();
    let foreign = Graph::new(9).input(&[]).unwrap();
    let vector = g.constant(&[1], &scalars(&[1.])).unwrap();
    for updates in [
        vec![(a, good.clone()), (b, wrong)],
        vec![(a, good.clone()), (a, good.clone())],
    ] {
        assert!(g.write_many_if(&yes, &updates).is_err());
        assert_eq!(g.read(&a).unwrap().node_id(), old_a.node_id());
        assert_eq!(g.read(&b).unwrap().node_id(), old_b.node_id());
    }
    for condition in [foreign, vector] {
        assert!(g
            .write_many_if(&condition, &vec![(a, good.clone())])
            .is_err());
        assert_eq!(g.read(&a).unwrap().node_id(), old_a.node_id());
    }
    g.write_many_if(&yes, &vec![]).unwrap();
    assert_eq!(g.read(&a).unwrap().node_id(), old_a.node_id());
    assert_eq!(g.read(&b).unwrap().node_id(), old_b.node_id());
}

#[test]
fn mixed_symbolic_write_failure_preserves_versions() {
    let mut g = StateGraph::new(1);
    let f = g.state(&[]).unwrap();
    let i = g.state_i32(&[]).unwrap();
    let old_f = g.read(&f).unwrap();
    let old_i = g.read(&i).unwrap();
    let next_f = old_f
        .add_scalar(g.tracer(), Scalar::Bits(1f32.to_bits()))
        .unwrap();
    let next_i = old_i.wrapping_add_scalar(g.tracer(), 1).unwrap();
    for updates in [
        vec![(f, next_f.clone()), (i, next_f.clone())],
        vec![(i, next_i.clone()), (i, next_i.clone())],
    ] {
        assert!(g.record_updates(&updates).is_err());
        assert_eq!(g.read(&f).unwrap().node_id(), old_f.node_id());
        assert_eq!(g.read(&i).unwrap().node_id(), old_i.node_id());
    }
}

#[test]
fn visible_parameter_map_preserves_interleaved_registration() {
    assert!(input_parameters(&[]).is_empty());
    assert!(input_parameters(&[Argument::State(0)]).is_empty());
    let arguments: Vec<_> = (0..1024)
        .flat_map(|i| [Argument::State(i), Argument::Input(i)])
        .collect();
    assert_eq!(
        input_parameters(&arguments),
        (0..1024).map(|i| 2 * i + 1).collect::<Vec<_>>()
    );
}

#[test]
fn batch_symbolic_writes_validate_before_commit() {
    let mut graph = StateGraph::new(1);
    let a = graph.state(&[]).unwrap();
    let b = graph.state(&[]).unwrap();
    let old_a = graph.read(&a).unwrap();
    let old_b = graph.read(&b).unwrap();
    let next = old_a
        .add_scalar(graph.tracer(), Scalar::Bits(1f32.to_bits()))
        .unwrap();
    let wrong_shape = graph.constant(&[1], &scalars(&[1.])).unwrap();
    let mut foreign = StateGraph::new(2);
    let foreign_slot = foreign.state(&[]).unwrap();
    let foreign_value = foreign.read(&foreign_slot).unwrap();
    let duplicate = a;
    for updates in [
        [(a, &next), (b, &wrong_shape)],
        [(a, &next), (b, &foreign_value)],
        [(a, &next), (foreign_slot, &next)],
        [(a, &next), (duplicate, &old_a)],
    ] {
        assert!(graph.write_many(&updates).is_err());
        assert_eq!(graph.read(&a).unwrap().node_id(), old_a.node_id());
        assert_eq!(graph.read(&b).unwrap().node_id(), old_b.node_id());
    }
    graph.write_many(&[]).unwrap();
    assert_eq!(graph.read(&a).unwrap().node_id(), old_a.node_id());
    graph.write_many(&[(a, &next)]).unwrap();
    let written_a = graph.read(&a).unwrap();
    assert_ne!(written_a.node_id(), old_a.node_id());
    assert_eq!(graph.read(&b).unwrap().node_id(), old_b.node_id());
    graph.write_many(&[(b, &next), (a, &old_b)]).unwrap();
    assert_ne!(graph.read(&a).unwrap().node_id(), written_a.node_id());
    assert_ne!(graph.read(&b).unwrap().node_id(), old_b.node_id());
}

#[test]
fn invalid_visible_integer_result_prevents_hidden_state_commit() {
    let mut graph = StateGraph::new(1);
    let state = graph.state_i32(&[]).unwrap();
    let value = graph.read(&state).unwrap();
    let program = graph.compile(5, &[value]).unwrap();
    let mut session = program
        .session(vec![(state, buffer(7, DType::I32, &[]))])
        .unwrap();
    assert!(session
        .run(
            &[],
            Ok(vec![
                buffer(99, DType::F32, &[]),
                buffer(99, DType::I32, &[])
            ])
        )
        .is_err());
    assert_eq!(session.state(&state).unwrap().handle, 7);
    let visible = session
        .run(
            &[],
            Ok(vec![
                buffer(98, DType::I32, &[]),
                buffer(99, DType::I32, &[])
            ]),
        )
        .unwrap();
    assert_eq!(visible.len(), 1);
    assert_eq!(visible[0].handle, 98);
    assert_eq!(session.state(&state).unwrap().handle, 99);
}

#[test]
fn wrong_integer_result_does_not_commit_any_state() {
    let mut g = StateGraph::new(1);
    let f = g.state(&[]).unwrap();
    let i = g.state_i32(&[]).unwrap();
    let program = g.compile(5, &[]).unwrap();
    let mut session = program
        .session(vec![
            (f, buffer(1, DType::F32, &[])),
            (i, buffer(2, DType::I32, &[])),
        ])
        .unwrap();
    assert!(session
        .run(
            &[],
            Ok(vec![
                buffer(99, DType::F32, &[]),
                buffer(99, DType::F32, &[])
            ])
        )
        .is_err());
    assert_eq!(session.state(&f).unwrap().handle, 1);
    assert_eq!(session.state(&i).unwrap().handle, 2);
}

#[test]
fn rejected_execution_and_partial_results_do_not_commit() {
    let mut graph = StateGraph::new(1);
    let a = graph.state(&[]).unwrap();
    let b = graph.state(&[]).unwrap();
    let program = graph.compile(5, &[]).unwrap();
    let mut session = program
        .session(vec![
            (a, buffer(1, DType::F32, &[])),
            (b, buffer(2, DType::F32, &[])),
        ])
        .unwrap();
    let failure = Error::InvalidArgument {
        message: "injected execution failure",
    };
    assert!(session.run(&[], Err(failure)).is_err());
    assert!(session.run(&[], Ok(vec![])).is_err());
    assert!(session
        .run(
            &[],
            Ok(vec![
                buffer(100, DType::F32, &[]),
                buffer(200, DType::F32, &[1])
            ])
        )
        .is_err());
    assert_eq!(session.state(&a).unwrap().handle, 1);
    assert_eq!(session.state(&b).unwrap().handle, 2);
}

#[test]
fn returned_state_initializes_another_session() {
    let mut graph = StateGraph::new(1);
    let a = graph.state(&[2]).unwrap();
    let b = graph.state_i32(&[]).unwrap();
    let program = graph.compile(5, &[]).unwrap();
    let session = program
        .session(vec![
            (b, buffer(2, DType::I32, &[])),
            (a, buffer(1, DType::F32, &[2])),
        ])
        .unwrap();
    let state = session.into_state();
    assert_eq!(state[0].0, a);
    assert_eq!(state[0].1.handle, 1);
    assert_eq!(state[1].0, b);
    assert!(program.session(state).is_ok());
    assert!(program
        .session(vec![(a, buffer(1, DType::F32, &[2]))])
        .is_err());
}

#[test]
fn state_copies_respect_both_limits() {
    let mut graph = StateGraph::new(1);
    let a = graph.state(&[2]).unwrap();
    let b = graph.state_i32(&[]).unwrap();
    let program = graph.compile(5, &[]).unwrap();
    let session = program
        .session(vec![
            (a, buffer(1, DType::F32, &[2])),
            (b, buffer(2, DType::I32, &[])),
        ])
        .unwrap();
    let copies = || Ok(vec![buffer(3, DType::F32, &[2]), buffer(4, DType::I32, &[])]);
    let moved = session
        .copy_state_to_client_via_host_with_limits(&[8, 4], 8, 12, copies())
        .unwrap();
    assert_eq!((moved[0].0, moved[0].1.handle), (a, 3));
    assert_eq!((moved[1].0, moved[1].1.handle), (b, 4));
    assert!(session
        .copy_state_to_client_via_host_with_limits(&[8, 4], 8, 11, copies())
        .is_err());
    assert!(session
        .copy_state_to_client_via_host(&[8, 4], 7, copies())
        .is_err());
    assert_eq!(check_host_payloads(&[8, 4], 8, 12).unwrap(), 12);
    assert!(matches!(
        check_host_payloads(&[1, usize::MAX], usize::MAX, usize::MAX),
        Err(Error::InvalidArgument {
            message: "state host payload size overflow"
        })
    ));
}

#[test]
fn pruned_programs_keep_every_slot() {
    let mut graph = StateGraph::new(1);
    let slot = graph.state(&[2]).unwrap();
    let unused = graph.input(&[3]).unwrap();
    let used = graph.input(&[2]).unwrap();
    let output = used.exp(graph.tracer()).unwrap();
    let program = graph.compile_pruned(5, &[output]).unwrap();
    assert_eq!(program.input_indices(), [1]);
    assert!(program.state_type(&slot).is_ok());
    assert_eq!(unused.shape(), [3]);
    let foreign = StateSlot { owner: 2, index: 0 };
    assert!(program.state_type(&foreign).is_err());
}

#[test]
fn imported_operations_keep_their_type() {
    let mut graph = StateGraph::new(1);
    let x = graph.input(&[2]).unwrap();
    let ty = x.ty();
    let y: Tensor = graph
        .append_dataflow(
            rxla_core::op::Op::Unary(rxla_core::op::Unary::Exp),
            &[x.clone()],
            &ty,
        )
        .unwrap();
    assert_eq!(y.shape(), [2]);
    let mut wrong = x.ty();
    wrong.dtype = DType::I32;
    assert!(matches!(
        graph.append_dataflow(
            rxla_core::op::Op::Unary(rxla_core::op::Unary::Exp),
            &[x],
            &wrong
        ),
        Err(Error::InvalidArgument {
            message: "imported operation changed result dtype"
        })
    ));
}
