use rxla_core::dtype::DType;
use rxla_core::error::Error;
use rxla_core::listing::Listing;
use rxla_core::plan::StateProgram;
use rxla_core::session::Buffer;
use rxla_core::state::{StateGraph, StateSlot};
use rxla_core::state_tree::{collect_states, nested, nested_at};

fn text(listing: &Listing<char>) -> String {
    listing.to_vec().iter().collect()
}

fn buffer(handle: u64, dtype: DType, dims: &[i64]) -> Buffer {
    Buffer {
        handle,
        client: 5,
        dtype,
        dims: dims.to_vec(),
    }
}

fn f32_buffer(handle: u64) -> Buffer {
    buffer(handle, DType::F32, &[2])
}

/// A program with two F32 slots.
fn pair(id: u64) -> (StateProgram, StateSlot, StateSlot) {
    let mut graph = StateGraph::new(id);
    let a = graph.state(&[2]).unwrap();
    let b = graph.state(&[2]).unwrap();
    (graph.compile(5, &[]).unwrap(), a, b)
}

#[test]
fn switching_programs_moves_every_buffer() {
    let (first, a, b) = pair(1);
    let (second, c, d) = pair(2);
    let mut session = first.session(vec![(a, f32_buffer(10)), (b, f32_buffer(20))]).unwrap();
    session.switch_program(&second, &[(a, d), (b, c)], vec![]).unwrap();
    assert_eq!(session.state(&d).unwrap().handle, 10);
    assert_eq!(session.state(&c).unwrap().handle, 20);
    assert!(session.state(&a).is_err());
    session.switch_program(&first, &[(d, a), (c, b)], vec![]).unwrap();
    assert_eq!(session.state(&a).unwrap().handle, 10);
    assert_eq!(session.state(&b).unwrap().handle, 20);
}

#[test]
fn refused_switches_leave_the_session_alone() {
    let (first, a, b) = pair(1);
    let (second, c, d) = pair(2);
    let mut graph = StateGraph::new(3);
    let x = graph.state(&[2]).unwrap();
    let y = graph.state(&[3]).unwrap();
    let third = graph.compile(5, &[]).unwrap();
    let mut session = first.session(vec![(a, f32_buffer(10)), (b, f32_buffer(20))]).unwrap();
    assert!(session.switch_program(&second, &[(a, c)], vec![]).is_err());
    assert!(session.switch_program(&second, &[(a, c), (b, c)], vec![]).is_err());
    assert!(session.switch_program(&second, &[(a, c), (c, d)], vec![]).is_err());
    assert!(matches!(
        session.switch_program(&third, &[(a, x), (b, y)], vec![]),
        Err(Error::InvalidArgument {
            message: "program switch state dtype or shape mismatch"
        })
    ));
    assert!(session
        .switch_program(&second, &[(a, c), (b, d)], vec![(0, f32_buffer(1))])
        .is_err());
    assert_eq!(session.state(&a).unwrap().handle, 10);
    assert_eq!(session.state(&b).unwrap().handle, 20);
}

#[test]
fn fixed_inputs_leave_the_others_in_order() {
    let mut graph = StateGraph::new(1);
    let slot = graph.state(&[2]).unwrap();
    let first = graph.parameter(&[2]).unwrap();
    let visible = graph.input(&[2]).unwrap();
    let last = graph.parameter(&[2]).unwrap();
    let program = graph.compile(5, &[visible]).unwrap();
    let mut session = program.session(vec![(slot, f32_buffer(1))]).unwrap();
    assert_eq!(session.input_count(), 3);
    session.bind_parameters(vec![(last.clone(), f32_buffer(9))]).unwrap();
    assert_eq!(session.input_count(), 2);
    assert_eq!(session.parameter(&last).unwrap().handle, 9);
    assert!(session.parameter(&first).is_err());
    let inputs = [f32_buffer(2), f32_buffer(3)];
    let arguments = session.arguments(&inputs).unwrap();
    let handles: Vec<u64> = arguments.iter().map(|argument| argument.handle).collect();
    assert_eq!(handles, [1, 2, 3, 9]);
    assert!(session.arguments(&inputs[..1]).is_err());
    assert!(session
        .bind_parameters(vec![(last.clone(), f32_buffer(7)), (last.clone(), f32_buffer(8))])
        .is_err());
    assert_eq!(session.parameter(&last).unwrap().handle, 9);
    assert!(session.bind_inputs(vec![(7, f32_buffer(7))]).is_err());
    session.bind_inputs(vec![(0, f32_buffer(6))]).unwrap();
    assert_eq!(session.parameter(&first).unwrap().handle, 6);
    assert!(session.parameter(&last).is_err());
    session.bind_inputs(vec![]).unwrap();
    assert_eq!(session.input_count(), 3);
}

#[test]
fn replaced_state_is_handed_back() {
    let (program, a, b) = pair(1);
    let mut session = program.session(vec![(a, f32_buffer(1)), (b, f32_buffer(2))]).unwrap();
    assert!(session.replace_state(vec![(a, f32_buffer(3))]).is_err());
    assert!(session
        .replace_state(vec![(a, f32_buffer(3)), (b, buffer(4, DType::I32, &[2]))])
        .is_err());
    assert_eq!(session.state(&a).unwrap().handle, 1);
    let previous = session
        .replace_state(vec![(b, f32_buffer(4)), (a, f32_buffer(3))])
        .unwrap();
    assert_eq!((previous[0].0, previous[0].1.handle), (a, 1));
    assert_eq!((previous[1].0, previous[1].1.handle), (b, 2));
    assert_eq!(session.state(&a).unwrap().handle, 3);
    assert_eq!(session.state(&b).unwrap().handle, 4);
    let fresh = session.new_session(previous).unwrap();
    assert_eq!(fresh.state(&a).unwrap().handle, 1);
    assert_eq!(session.state(&a).unwrap().handle, 3);
    let mut foreign = f32_buffer(8);
    foreign.client = 6;
    assert!(session.new_session(vec![(a, foreign), (b, f32_buffer(9))]).is_err());
}

#[test]
fn names_map_states_between_programs() {
    let (first, a, b) = pair(1);
    let (second, c, d) = pair(2);
    let mapping = first
        .map_state_by_name(&[("mean", a), ("scale", b)], &second, &[("scale", c), ("mean", d)])
        .unwrap();
    assert_eq!(mapping, [(a, d), (b, c)]);
    assert!(matches!(
        first.map_state_by_name(
            &[("mean", a), ("scale", b)],
            &second,
            &[("shift", c), ("mean", d)]
        ),
        Err(Error::StateNameMissing { name }) if text(&name) == "scale"
    ));
    assert!(first
        .map_state_by_name(&[("mean", a), ("mean", b)], &second, &[("scale", c), ("mean", d)])
        .is_err());
    assert!(first
        .map_state_by_name(&[("", a), ("scale", b)], &second, &[("", c), ("scale", d)])
        .is_err());
    assert!(first.map_state_by_name(&[("mean", a)], &second, &[("mean", d)]).is_err());
}

#[test]
fn prepared_transitions_describe_their_state() {
    let mut graph = StateGraph::new(1);
    let weight = graph.trainable_parameter(&[2]).unwrap();
    let frozen = graph.parameter_bf16_as_f32(&[3]).unwrap();
    let slot = graph.state_i32(&[]).unwrap();
    let output = frozen.tensor().clone();
    let prepared = graph.prepare(&[output]).unwrap();
    assert_eq!(prepared.parameter_type(&weight).unwrap(), (DType::F32, vec![2]));
    assert_eq!(prepared.parameter_type(&frozen).unwrap(), (DType::BF16, vec![3]));
    assert_eq!(prepared.state_type(&slot).unwrap(), (DType::I32, vec![]));
    let trained = weight.state_slot().unwrap();
    assert_eq!(
        prepared.state_layout(&[slot, trained]).unwrap(),
        [(DType::I32, vec![]), (DType::F32, vec![2])]
    );
    assert!(prepared.state_layout(&[slot]).is_err());
    assert!(prepared.state_layout(&[slot, slot]).is_err());
    let later = graph.state(&[1]).unwrap();
    assert!(prepared.state_type(&later).is_err());
    let program = prepared.compile(5);
    assert_eq!(program.client(), 5);
    assert_eq!(program.zero_state(&[trained, slot]).unwrap().len(), 2);
    assert!(program.zero_state(&[trained]).is_err());
}

#[test]
fn updates_return_what_they_record() {
    let mut graph = StateGraph::new(1);
    let slot = graph.state(&[2]).unwrap();
    let before = graph.read(&slot).unwrap();
    let next = before.exp(graph.tracer()).unwrap();
    let recorded = graph.update(&slot, Ok(next.clone())).unwrap();
    assert_eq!(recorded.node_id(), next.node_id());
    assert_ne!(graph.read(&slot).unwrap().node_id(), before.node_id());
    let current = graph.read(&slot).unwrap().node_id();
    let failure = Error::InvalidArgument { message: "model" };
    assert!(graph.update(&slot, Err(failure)).is_err());
    assert_eq!(graph.read(&slot).unwrap().node_id(), current);
    let mask = graph.input(&[]).unwrap();
    let chosen = graph.update_if(&mask, &slot, Ok(next.clone())).unwrap();
    assert_eq!(chosen.node_id(), graph.read(&slot).unwrap().node_id());
    assert_ne!(chosen.node_id(), next.node_id());
    let wide = graph.input(&[1]).unwrap();
    assert!(graph.update_if(&wide, &slot, Ok(next)).is_err());
    assert_eq!(chosen.node_id(), graph.read(&slot).unwrap().node_id());
}

#[test]
fn state_names_are_collected_once_per_slot() {
    let a = StateSlot { owner: 1, index: 0 };
    let b = StateSlot { owner: 1, index: 1 };
    let inner = vec![("mean".to_owned(), a), ("scale".to_owned(), b)];
    let mut visits = nested("norm", &inner);
    visits.extend(nested_at("layers", 2, &vec![("shared".to_owned(), a)]));
    let entries = collect_states(&visits).unwrap();
    assert_eq!(entries.len(), 2);
    assert_eq!(entries[0].name, "norm.mean");
    assert_eq!(entries[0].aliases, ["layers.2.shared"]);
    assert_eq!(entries[1].name, "norm.scale");
    assert!(entries[1].aliases.is_empty());
    assert!(collect_states(&vec![("a..b".to_owned(), a)]).is_err());
    assert!(matches!(
        collect_states(&vec![("x".to_owned(), a), ("x".to_owned(), b)]),
        Err(Error::DuplicateStatePath { path }) if text(&path) == "x"
    ));
}
