//! Resident Threefry counters: sequences of draws and their commit.
use crate::dtype::DType;
use crate::error::{err, invalid, Error};
use crate::graph::{scalar, scalar_i32, Expr, Graph, Tensor, Value};
use crate::op::{
    f32_nan, f32_order, f32_positive_finite, is_nan, is_positive_finite, order, Scalar, F32_ONE,
    F32_ZERO,
};
use crate::random::{
    blocks_of, candidate_shape, categorical_from_bits, categorical_of, normal_f32_from_bits,
    threefry2x32_blocks, top_p_categorical_from_bits, top_p_categorical_of,
    topk_categorical_from_bits, topk_categorical_of, topk_sample_shape, uniform_f32_from_bits,
    yields_choice, yields_draw, CategoricalSample, Choice, Draw, ThreefryBlocks,
};
use crate::shape::volume;
use crate::state::{
    updates_recorded_if, slot_refusal, slots_added, update_values, StateGraph, StateSlot, Updates,
};
use crate::state_tree::{visits_view, StateTree};
use vstd::prelude::*;

verus! {

/// Inverted-dropout output and its explicit F32 keep mask.
pub struct DropoutSample {
    pub output: Tensor,
    pub keep_mask: Tensor,
}

/// Four resident scalar I32 slots: two key words, then the low and the high
/// word of the counter.
pub struct ThreefryState {
    slots: [StateSlot; 4],
}

/// The I32 value with the bits of a word.
pub open spec fn word(bits: u32) -> i32 {
    if bits < 0x8000_0000 {
        bits as i32
    } else {
        (bits - 0x1_0000_0000) as i32
    }
}

/// The I32 value with the bits of a word.
fn word_of(bits: u32) -> (r: i32)
    ensures
        r == word(bits),
{
    if bits < 0x8000_0000 {
        bits as i32
    } else {
        let wide: i64 = bits as i64 - 0x1_0000_0000;
        wide as i32
    }
}

/// Why the key words of a reset are refused.
pub open spec fn reset_refusal(state: StateGraph, slots: Seq<StateSlot>, key: (Value, Value)) -> Option<
    Error,
> {
    match slot_refusal(state.schema(), state.versions().len(), slots[0]) {
        Some(e) => Some(e),
        None => if key.0.dims.len() != 0 || key.0.graph != state.schema() || key.1.dims.len() != 0
            || key.1.graph != state.schema() {
            Some(invalid("Threefry reset keys must be same-graph scalar words"))
        } else {
            match scalar_i32(state.schema(), 0) {
                Expr::Fails(e) => Some(e),
                Expr::Is(_) => None,
            }
        },
    }
}

/// The writes of a reset.
pub open spec fn reset_updates(graph: u64, slots: Seq<StateSlot>, key: (Value, Value)) -> Updates {
    let zero = scalar_i32(graph, 0)->Is_0;
    seq![(slots[0], key.0), (slots[1], key.1), (slots[2], zero), (slots[3], zero)]
}

/// The versions of the four slots, or why they cannot be read.
pub open spec fn read_words(state: StateGraph, slots: Seq<StateSlot>) -> Option<Error> {
    let count = state.versions().len();
    match slot_refusal(state.schema(), count, slots[0]) {
        Some(e) => Some(e),
        None => match slot_refusal(state.schema(), count, slots[1]) {
            Some(e) => Some(e),
            None => match slot_refusal(state.schema(), count, slots[2]) {
                Some(e) => Some(e),
                None => slot_refusal(state.schema(), count, slots[3]),
            },
        },
    }
}

/// The version of a slot.
pub open spec fn word_at(state: StateGraph, slot: StateSlot) -> Tensor {
    state.versions()[slot.index as int]
}

impl ThreefryState {
    /// The four slots.
    pub closed spec fn words(self) -> Seq<StateSlot> {
        self.slots@
    }

    /// There are four slots.
    pub proof fn lemma_four(self)
        ensures
            self.words().len() == 4,
    {
    }

    /// Another handle to the same slots.
    pub fn duplicate(&self) -> (r: ThreefryState)
        ensures
            r.words() == self.words(),
    {
        let slots: [StateSlot; 4] = [self.slots[0], self.slots[1], self.slots[2], self.slots[3]];
        assert(slots@ =~= self.slots@);
        ThreefryState { slots }
    }

    /// Register the four slots.
    pub fn new(graph: &mut StateGraph) -> (r: Result<ThreefryState, Error>)
        requires
            old(graph).wf(),
        ensures
            r matches Ok(state) && slots_added(
                *old(graph),
                *final(graph),
                state.words(),
                DType::I32,
                Seq::empty(),
            ),
    {
        let dims: Vec<i64> = Vec::new();
        assert(volume(dims@) == Some(1nat));
        let list: Vec<StateSlot> = graph.add_slots(dims.as_slice(), DType::I32, 4)?;
        let slots: [StateSlot; 4] = [list[0], list[1], list[2], list[3]];
        assert(slots@ =~= list@);
        assert(dims@ =~= Seq::empty());
        Ok(ThreefryState { slots })
    }

    /// The four slots.
    pub fn slots(&self) -> (r: &[StateSlot; 4])
        ensures
            r@ == self.words(),
    {
        &self.slots
    }

    /// The initial contents of the slots for raw key words and a counter.
    pub fn initial_state(&self, key: (u32, u32), counter: u64) -> (r: Vec<(StateSlot, i32)>)
        ensures
            r@ == seq![
                (self.words()[0], word(key.0)),
                (self.words()[1], word(key.1)),
                (self.words()[2], word((counter % 0x1_0000_0000) as u32)),
                (self.words()[3], word((counter / 0x1_0000_0000) as u32)),
            ],
    {
        let low: u32 = (counter % 0x1_0000_0000) as u32;
        let high: u32 = (counter / 0x1_0000_0000) as u32;
        let list: Vec<(StateSlot, i32)> = vec![
            (self.slots[0], word_of(key.0)),
            (self.slots[1], word_of(key.1)),
            (self.slots[2], word_of(low)),
            (self.slots[3], word_of(high)),
        ];
        assert(list@ =~= seq![
            (self.words()[0], word(key.0)),
            (self.words()[1], word(key.1)),
            (self.words()[2], word((counter % 0x1_0000_0000) as u32)),
            (self.words()[3], word((counter / 0x1_0000_0000) as u32)),
        ]);
        list
    }

    /// Where a scalar mask is not zero, replace the key and reset the counter.
    #[verifier::rlimit(60)]
    pub fn reset_key_if(
        &self,
        graph: &mut StateGraph,
        key: (&Tensor, &Tensor),
        condition: &Tensor,
    ) -> (r: Result<(), Error>)
        requires
            old(graph).wf(),
            old(graph).tensors().admits(*key.0),
            old(graph).tensors().admits(*key.1),
            old(graph).tensors().admits(*condition),
        ensures
            match reset_refusal(*old(graph), self.words(), (key.0@, key.1@)) {
                Some(e) => r == Err::<(), Error>(e) && final(graph).grows(*old(graph)),
                None => updates_recorded_if(
                    *old(graph),
                    *final(graph),
                    condition@,
                    reset_updates(old(graph).schema(), self.words(), (key.0@, key.1@)),
                    r is Ok,
                    match r {
                        Ok(_) => None,
                        Err(e) => Some(e),
                    },
                ),
            },
    {
        let current: Tensor = graph.read(&self.slots[0])?;
        if key.0.shape().len() != 0 || key.0.graph_id() != current.graph_id() || key.1.shape().len()
            != 0 || key.1.graph_id() != current.graph_id() {
            return Err(err("Threefry reset keys must be same-graph scalar words"));
        }
        let zero: Tensor = graph.scalar_i32(0)?;
        assert(graph.values() =~= old(graph).values());
        let updates: Vec<(StateSlot, Tensor)> = vec![
            (self.slots[0], key.0.copy()),
            (self.slots[1], key.1.copy()),
            (self.slots[2], zero.copy()),
            (self.slots[3], zero.copy()),
        ];
        assert(update_values(updates@) =~= reset_updates(
            old(graph).schema(),
            self.words(),
            (key.0@, key.1@),
        ));
        graph.write_many_if(condition, &updates)
    }

    /// Begin a sequence of draws from the current versions.
    pub fn begin(&self, graph: &mut StateGraph) -> (r: Result<ThreefrySequence, Error>)
        requires
            old(graph).wf(),
        ensures
            final(graph).grows(*old(graph)),
            match read_words(*old(graph), self.words()) {
                Some(e) => r == Err::<ThreefrySequence, Error>(e),
                None => {
                    &&& r matches Ok(sequence)
                    &&& sequence.held_by(final(graph).tensors())
                    &&& sequence@ == begun(*old(graph), self.words())
                },
            },
    {
        let key: Tensor = graph.read(&self.slots[0])?;
        let key_next: Tensor = graph.read(&self.slots[1])?;
        let low: Tensor = graph.read(&self.slots[2])?;
        let high: Tensor = graph.read(&self.slots[3])?;
        proof {
            assert(scalar(graph.schema(), Scalar::Bits(F32_ONE)) is Is) by {
                reveal(crate::graph::applied);
            }
        }
        let available: Tensor = graph.tracer().scalar(Scalar::Bits(F32_ONE))?;
        let sequence = ThreefrySequence {
            state: self.duplicate(),
            next: (low.copy(), high.copy()),
            key: (key, key_next),
            counter: (low, high),
            available,
        };
        proof {
            assert(sequence@.origins =~= begun(*old(graph), self.words()).origins);
        }
        Ok(sequence)
    }
}

impl StateTree for ThreefryState {
    fn visit_states(&self) -> (r: Vec<(String, StateSlot)>)
        ensures
            visits_view(r@) == seq![
                ("key0"@, self.words()[0]),
                ("key1"@, self.words()[1]),
                ("counter_low"@, self.words()[2]),
                ("counter_high"@, self.words()[3]),
            ],
    {
        let list: Vec<(String, StateSlot)> = vec![
            ("key0".to_owned(), self.slots[0]),
            ("key1".to_owned(), self.slots[1]),
            ("counter_low".to_owned(), self.slots[2]),
            ("counter_high".to_owned(), self.slots[3]),
        ];
        assert(visits_view(list@) =~= seq![
            ("key0"@, self.words()[0]),
            ("key1"@, self.words()[1]),
            ("counter_low"@, self.words()[2]),
            ("counter_high"@, self.words()[3]),
        ]);
        list
    }
}

/// A sequence of draws: its slots, the versions it started from, the key, the
/// counter reached so far, and whether the counter has not wrapped.
pub ghost struct SequenceModel {
    pub slots: Seq<StateSlot>,
    pub origins: Seq<usize>,
    pub key: (Value, Value),
    pub cursor: (Value, Value),
    pub available: Value,
}

/// The sequence at the start.
pub open spec fn begun(state: StateGraph, slots: Seq<StateSlot>) -> SequenceModel {
    SequenceModel {
        slots,
        origins: Seq::new(4, |k: int| word_at(state, slots[k]).id()),
        key: (word_at(state, slots[0])@, word_at(state, slots[1])@),
        cursor: (word_at(state, slots[2])@, word_at(state, slots[3])@),
        available: scalar(state.schema(), Scalar::Bits(F32_ONE))->Is_0,
    }
}

impl SequenceModel {
    /// The blocks that the next draw of a shape takes.
    pub open spec fn draw(self, shape: Seq<i64>) -> Draw {
        blocks_of(self.key, self.cursor, shape)
    }

    /// Whether the counter has not wrapped after a draw.
    #[verifier::opaque]
    pub open spec fn availability(self, shape: Seq<i64>) -> Expr {
        let draw = self.draw(shape);
        Expr::Is(self.available).mul(
            draw.wrapped.neg().add_scalar(Scalar::Bits(F32_ONE)).given(draw.outcome()),
        )
    }

    /// The sequence after a draw.
    pub open spec fn advanced(self, shape: Seq<i64>) -> SequenceModel {
        let draw = self.draw(shape);
        SequenceModel {
            cursor: (draw.next.first->Is_0, draw.next.second->Is_0),
            available: self.availability(shape)->Is_0,
            ..self
        }
    }
}

/// A proposed sequence of draws, which take consecutive blocks. If the counter
/// wraps, the whole sequence is refused at its commit.
pub struct ThreefrySequence {
    state: ThreefryState,
    key: (Tensor, Tensor),
    counter: (Tensor, Tensor),
    next: (Tensor, Tensor),
    available: Tensor,
}

impl View for ThreefrySequence {
    type V = SequenceModel;

    closed spec fn view(&self) -> SequenceModel {
        SequenceModel {
            slots: self.state.words(),
            origins: seq![
                self.key.0.id(),
                self.key.1.id(),
                self.counter.0.id(),
                self.counter.1.id(),
            ],
            key: (self.key.0@, self.key.1@),
            cursor: (self.next.0@, self.next.1@),
            available: self.available@,
        }
    }
}

/// The outcome of a draw of one tensor: its value with the sequence advanced, or
/// the first failure with the sequence as it was.
pub open spec fn drawn_from(
    before: SequenceModel,
    after: SequenceModel,
    graph: Graph,
    shape: Seq<i64>,
    value: Expr,
    r: Result<Tensor, Error>,
) -> bool {
    match before.availability(shape) {
        Expr::Fails(e) => r == Err::<Tensor, Error>(e) && after == before,
        Expr::Is(_) => {
            &&& graph.yields(r, value)
            &&& after == if r is Ok {
                before.advanced(shape)
            } else {
                before
            }
        },
    }
}

/// The outcome of a draw of categories.
pub open spec fn chosen_from(
    before: SequenceModel,
    after: SequenceModel,
    graph: Graph,
    shape: Seq<i64>,
    choice: Choice,
    r: Result<CategoricalSample, Error>,
) -> bool {
    match before.availability(shape) {
        Expr::Fails(e) => r == Err::<CategoricalSample, Error>(e) && after == before,
        Expr::Is(_) => {
            &&& yields_choice(graph, r, choice)
            &&& after == if r is Ok {
                before.advanced(shape)
            } else {
                before
            }
        },
    }
}

/// The first words of a draw, once it has succeeded.
pub open spec fn first_word(m: SequenceModel, shape: Seq<i64>) -> Value {
    m.draw(shape).bits.first->Is_0
}

/// Whether random words are below a probability.
pub open spec fn below(graph: u64, words: Expr, probability: u32, shape: Seq<i64>) -> Expr {
    let uniform = words.uniform_from_bits();
    let level = scalar(graph, Scalar::Bits(probability)).broadcast_to(shape);
    uniform.lt_mask(level)
}

/// Whether a probability is a number from zero to one.
pub open spec fn probability_valid(probability: u32) -> bool {
    !f32_nan(probability) && 0 <= f32_order(probability) <= f32_order(F32_ONE)
}

/// The outcome of dropout: the output and the mask, or the first failure.
pub open spec fn dropped_from(
    before: SequenceModel,
    after: SequenceModel,
    graph: Graph,
    input: Value,
    probability: u32,
    r: Result<DropoutSample, Error>,
) -> bool {
    if !f32_positive_finite(probability) || f32_order(probability) > f32_order(F32_ONE) {
        r == Err::<DropoutSample, Error>(
            invalid("dropout keep probability must be finite and in (0, 1]"),
        ) && after == before
    } else if input.graph != before.key.0.graph {
        r == Err::<DropoutSample, Error>(invalid("dropout input belongs to another RNG graph"))
            && after == before
    } else if f32_order(probability) == f32_order(F32_ONE) {
        let mask = scalar(before.key.0.graph, Scalar::Bits(F32_ONE)).broadcast_to(input.dims);
        after == before && match r {
            Ok(sample) => graph.owns(sample.output) && graph.owns(sample.keep_mask)
                && sample.output@ == input && mask == Expr::Is(sample.keep_mask@),
            Err(e) => mask == Expr::Fails(e),
        }
    } else {
        match before.availability(input.dims) {
            Expr::Fails(e) => r == Err::<DropoutSample, Error>(e) && after == before,
            Expr::Is(_) => {
                let mask = below(
                    before.key.0.graph,
                    Expr::Is(first_word(before, input.dims)),
                    probability,
                    input.dims,
                );
                let output = Expr::Is(input).dropout_with_mask(mask, probability);
                match r {
                    Ok(sample) => {
                        &&& graph.owns(sample.output)
                        &&& graph.owns(sample.keep_mask)
                        &&& mask == Expr::Is(sample.keep_mask@)
                        &&& output == Expr::Is(sample.output@)
                        &&& after == before.advanced(input.dims)
                    },
                    Err(e) => output.given(mask) == Expr::Fails(e) && after == before,
                }
            },
        }
    }
}

/// Why a commit is refused: a slot of another schema, or one that has changed.
pub open spec fn stale_words(
    state: StateGraph,
    slots: Seq<StateSlot>,
    origins: Seq<usize>,
    count: nat,
) -> Option<Error>
    decreases count,
{
    if count == 0 {
        None
    } else {
        match stale_words(state, slots, origins, (count - 1) as nat) {
            Some(e) => Some(e),
            None => match slot_refusal(state.schema(), state.versions().len(), slots[count - 1]) {
                Some(e) => Some(e),
                None => if word_at(state, slots[count - 1]).id() != origins[count - 1] {
                    Some(invalid("stale Threefry sequence: state changed since begin"))
                } else {
                    None
                },
            },
        }
    }
}

/// Whether a commit is accepted, as an F32 mask.
pub open spec fn acceptance(graph: u64, condition: Value, available: Value) -> Expr {
    let zero = scalar(graph, Scalar::Bits(F32_ZERO));
    Expr::Is(condition).select(Expr::Is(available), zero).given(zero)
}

/// The writes of a commit.
pub open spec fn commit_updates(m: SequenceModel) -> Updates {
    seq![(m.slots[2], m.cursor.0), (m.slots[3], m.cursor.1)]
}

impl ThreefrySequence {
    /// The graph holds every tensor of the sequence.
    pub closed spec fn held_by(self, graph: Graph) -> bool {
        &&& graph.owns(self.key.0)
        &&& graph.owns(self.key.1)
        &&& graph.owns(self.next.0)
        &&& graph.owns(self.next.1)
        &&& graph.owns(self.available)
    }

    /// The graph admits every tensor of the sequence.
    pub closed spec fn admitted_by(self, graph: Graph) -> bool {
        &&& graph.admits(self.next.0)
        &&& graph.admits(self.next.1)
        &&& graph.admits(self.available)
    }

    /// A graph that holds a sequence admits it, and the key is its own.
    pub proof fn lemma_held(self, graph: Graph)
        requires
            self.held_by(graph),
        ensures
            self.admitted_by(graph),
            self@.key.0.graph == graph.key(),
    {
    }

    /// A graph that has grown still holds a sequence.
    pub proof fn lemma_still_held(self, before: Graph, after: Graph)
        requires
            self.held_by(before),
            after.extends(before),
        ensures
            self.held_by(after),
    {
    }

    /// The next blocks, and whether the counter has still not wrapped.
    fn propose(&self, graph: &mut Graph, shape: &[i64]) -> (r: Result<(ThreefryBlocks, Tensor), Error>)
        requires
            old(graph).wf(),
            self.held_by(*old(graph)),
        ensures
            final(graph).extends(*old(graph)),
            self.held_by(*final(graph)),
            match r {
                Ok((blocks, available)) => {
                    &&& yields_draw(*final(graph), Ok(blocks), self@.draw(shape@))
                    &&& final(graph).owns(available)
                    &&& self@.availability(shape@) == Expr::Is(available@)
                },
                Err(e) => self@.availability(shape@) == Expr::Fails(e),
            },
    {
        proof {
            reveal(SequenceModel::availability);
            reveal(Expr::add_scalar);
        }
        let draw: ThreefryBlocks = threefry2x32_blocks(
            graph,
            (&self.key.0, &self.key.1),
            (&self.next.0, &self.next.1),
            shape,
        )?;
        let fresh: Tensor = draw.counter_wrapped.neg(graph)?.add_scalar(
            graph,
            Scalar::Bits(F32_ONE),
        )?;
        let available: Tensor = self.available.mul(graph, &fresh)?;
        Ok((draw, available))
    }

    /// Take over the counter of a draw.
    fn advance(&mut self, next: (Tensor, Tensor), available: Tensor)
        ensures
            final(self)@ == (SequenceModel {
                cursor: (next.0@, next.1@),
                available: available@,
                ..old(self)@
            }),
            forall|graph: Graph|
                #![trigger final(self).held_by(graph)]
                old(self).held_by(graph) && graph.owns(next.0) && graph.owns(next.1) && graph.owns(
                    available,
                ) ==> final(self).held_by(graph),
    {
        self.next = next;
        self.available = available;
    }

    /// Two word tensors, one block per element. Errors leave the sequence as it
    /// was.
    pub fn blocks(&mut self, graph: &mut Graph, shape: &[i64]) -> (r: Result<(Tensor, Tensor), Error>)
        requires
            old(graph).wf(),
            old(self).held_by(*old(graph)),
        ensures
            final(graph).extends(*old(graph)),
            final(self).held_by(*final(graph)),
            match old(self)@.availability(shape@) {
                Expr::Fails(e) => r == Err::<(Tensor, Tensor), Error>(e) && final(self)@ == old(
                    self,
                )@,
                Expr::Is(_) => {
                    &&& r matches Ok((a, b))
                    &&& final(graph).owns(a)
                    &&& final(graph).owns(b)
                    &&& old(self)@.draw(shape@).bits.first == Expr::Is(a@)
                    &&& old(self)@.draw(shape@).bits.second == Expr::Is(b@)
                    &&& final(self)@ == old(self)@.advanced(shape@)
                },
            },
    {
        let (draw, available) = self.propose(graph, shape)?;
        let ThreefryBlocks { bits, next_counter, counter_wrapped: _ } = draw;
        self.advance(next_counter, available);
        Ok(bits)
    }

    /// Child keys: `count` blocks as two word tensors of extent `count`.
    pub fn split_keys(&mut self, graph: &mut Graph, count: usize) -> (r: Result<
        (Tensor, Tensor),
        Error,
    >)
        requires
            old(graph).wf(),
            old(self).held_by(*old(graph)),
        ensures
            final(graph).extends(*old(graph)),
            final(self).held_by(*final(graph)),
            if count > i32::MAX {
                r == Err::<(Tensor, Tensor), Error>(
                    invalid("Threefry split count exceeds I32 range"),
                ) && final(self)@ == old(self)@
            } else {
                match old(self)@.availability(seq![count as i64]) {
                    Expr::Fails(e) => r == Err::<(Tensor, Tensor), Error>(e) && final(self)@ == old(
                        self,
                    )@,
                    Expr::Is(_) => {
                        &&& r matches Ok((a, b))
                        &&& final(graph).owns(a)
                        &&& final(graph).owns(b)
                        &&& old(self)@.draw(seq![count as i64]).bits.first == Expr::Is(a@)
                        &&& old(self)@.draw(seq![count as i64]).bits.second == Expr::Is(b@)
                        &&& final(self)@ == old(self)@.advanced(seq![count as i64])
                    },
                }
            },
    {
        if count > i32::MAX as usize {
            return Err(err("Threefry split count exceeds I32 range"));
        }
        let size: i64 = count as i64;
        let shape: Vec<i64> = vec![size];
        assert(shape@ =~= seq![count as i64]);
        self.blocks(graph, shape.as_slice())
    }

    /// Uniform F32 values in `[0, 1)`, from the first word of one block per
    /// element.
    pub fn uniform_f32(&mut self, graph: &mut Graph, shape: &[i64]) -> (r: Result<Tensor, Error>)
        requires
            old(graph).wf(),
            old(self).held_by(*old(graph)),
        ensures
            final(graph).extends(*old(graph)),
            final(self).held_by(*final(graph)),
            drawn_from(
                old(self)@,
                final(self)@,
                *final(graph),
                shape@,
                Expr::Is(first_word(old(self)@, shape@)).uniform_from_bits(),
                r,
            ),
    {
        let (draw, available) = self.propose(graph, shape)?;
        let ghost middle = *graph;
        let output: Tensor = match uniform_f32_from_bits(graph, &draw.bits.0) {
            Ok(output) => output,
            Err(e) => {
                proof {
                    self.lemma_still_held(middle, *graph);
                }
                return Err(e);
            },
        };
        proof {
            self.lemma_still_held(middle, *graph);
        }
        let ThreefryBlocks { bits: _, next_counter, counter_wrapped: _ } = draw;
        self.advance(next_counter, available);
        Ok(output)
    }

    /// Approximate standard-normal values, from both words of one block per
    /// element.
    pub fn normal_f32(&mut self, graph: &mut Graph, shape: &[i64]) -> (r: Result<Tensor, Error>)
        requires
            old(graph).wf(),
            old(self).held_by(*old(graph)),
        ensures
            final(graph).extends(*old(graph)),
            final(self).held_by(*final(graph)),
            drawn_from(
                old(self)@,
                final(self)@,
                *final(graph),
                shape@,
                old(self)@.draw(shape@).bits.first.normal_from_bits(
                    old(self)@.draw(shape@).bits.second,
                ),
                r,
            ),
    {
        let (draw, available) = self.propose(graph, shape)?;
        let ghost middle = *graph;
        let output: Tensor = match normal_f32_from_bits(graph, (&draw.bits.0, &draw.bits.1)) {
            Ok(output) => output,
            Err(e) => {
                proof {
                    self.lemma_still_held(middle, *graph);
                }
                return Err(e);
            },
        };
        proof {
            self.lemma_still_held(middle, *graph);
        }
        let ThreefryBlocks { bits: _, next_counter, counter_wrapped: _ } = draw;
        self.advance(next_counter, available);
        Ok(output)
    }

    /// An F32 mask of one where a uniform draw is below the probability. The
    /// probabilities zero and one give constants and take no blocks.
    pub fn bernoulli(&mut self, graph: &mut Graph, shape: &[i64], probability: u32) -> (r: Result<
        Tensor,
        Error,
    >)
        requires
            old(graph).wf(),
            old(self).held_by(*old(graph)),
        ensures
            final(graph).extends(*old(graph)),
            final(self).held_by(*final(graph)),
            if !probability_valid(probability) {
                r == Err::<Tensor, Error>(
                    invalid("device Bernoulli probability must be finite and in [0, 1]"),
                ) && final(self)@ == old(self)@
            } else if f32_order(probability) == 0 {
                final(graph).yields(
                    r,
                    scalar(old(graph).key(), Scalar::Bits(F32_ZERO)).broadcast_to(shape@),
                ) && final(self)@ == old(self)@
            } else if f32_order(probability) == f32_order(F32_ONE) {
                final(graph).yields(
                    r,
                    scalar(old(graph).key(), Scalar::Bits(F32_ONE)).broadcast_to(shape@),
                ) && final(self)@ == old(self)@
            } else {
                drawn_from(
                    old(self)@,
                    final(self)@,
                    *final(graph),
                    shape@,
                    below(
                        old(graph).key(),
                        Expr::Is(first_word(old(self)@, shape@)),
                        probability,
                        shape@,
                    ),
                    r,
                )
            },
    {
        if is_nan(probability) || order(probability) < 0 || order(probability) > order(F32_ONE) {
            return Err(err("device Bernoulli probability must be finite and in [0, 1]"));
        }
        if order(probability) == 0 {
            let result: Result<Tensor, Error> = filled_with(graph, F32_ZERO, shape);
            proof {
                self.lemma_still_held(*old(graph), *graph);
            }
            return result;
        }
        if order(probability) == order(F32_ONE) {
            let result: Result<Tensor, Error> = filled_with(graph, F32_ONE, shape);
            proof {
                self.lemma_still_held(*old(graph), *graph);
            }
            return result;
        }
        let (draw, available) = self.propose(graph, shape)?;
        let ghost middle = *graph;
        let output: Tensor = match below_mask(graph, &draw.bits.0, probability, shape) {
            Ok(output) => output,
            Err(e) => {
                proof {
                    self.lemma_still_held(middle, *graph);
                }
                return Err(e);
            },
        };
        proof {
            self.lemma_still_held(middle, *graph);
        }
        let ThreefryBlocks { bits: _, next_counter, counter_wrapped: _ } = draw;
        self.advance(next_counter, available);
        Ok(output)
    }

    /// Training-only inverted dropout. A keep probability of one returns the
    /// input and takes no blocks.
    pub fn dropout(&mut self, graph: &mut Graph, input: &Tensor, keep_probability: u32) -> (r:
        Result<DropoutSample, Error>)
        requires
            old(graph).wf(),
            old(self).held_by(*old(graph)),
            old(graph).admits(*input),
        ensures
            final(graph).extends(*old(graph)),
            final(self).held_by(*final(graph)),
            dropped_from(
                old(self)@,
                final(self)@,
                *final(graph),
                input@,
                keep_probability,
                r,
            ),
    {
        proof {
            self.lemma_held(*graph);
        }
        if !is_positive_finite(keep_probability) || order(keep_probability) > order(F32_ONE) {
            return Err(err("dropout keep probability must be finite and in (0, 1]"));
        }
        if input.graph_id() != self.key.0.graph_id() {
            return Err(err("dropout input belongs to another RNG graph"));
        }
        if order(keep_probability) == order(F32_ONE) {
            let result: Result<Tensor, Error> = filled_with(graph, F32_ONE, input.shape());
            proof {
                self.lemma_still_held(*old(graph), *graph);
            }
            return match result {
                Ok(keep_mask) => Ok(DropoutSample { output: input.copy(), keep_mask }),
                Err(e) => Err(e),
            };
        }
        let (draw, available) = self.propose(graph, input.shape())?;
        let ghost middle = *graph;
        let keep_mask: Tensor = match below_mask(
            graph,
            &draw.bits.0,
            keep_probability,
            input.shape(),
        ) {
            Ok(keep_mask) => keep_mask,
            Err(e) => {
                proof {
                    self.lemma_still_held(middle, *graph);
                }
                return Err(e);
            },
        };
        let output: Tensor = match input.dropout_with_mask(graph, &keep_mask, keep_probability) {
            Ok(output) => output,
            Err(e) => {
                proof {
                    self.lemma_still_held(middle, *graph);
                }
                return Err(e);
            },
        };
        proof {
            self.lemma_still_held(middle, *graph);
        }
        let ThreefryBlocks { bits: _, next_counter, counter_wrapped: _ } = draw;
        self.advance(next_counter, available);
        Ok(DropoutSample { output, keep_mask })
    }

    /// A categorical draw with one block per logit.
    pub fn categorical(&mut self, graph: &mut Graph, logits: &Tensor, axis: usize) -> (r: Result<
        CategoricalSample,
        Error,
    >)
        requires
            old(graph).wf(),
            old(self).held_by(*old(graph)),
            old(graph).admits(*logits),
        ensures
            final(graph).extends(*old(graph)),
            final(self).held_by(*final(graph)),
            if logits@.graph != old(graph).key() {
                r == Err::<CategoricalSample, Error>(
                    invalid("categorical input belongs to another RNG graph"),
                ) && final(self)@ == old(self)@
            } else {
                chosen_from(
                    old(self)@,
                    final(self)@,
                    *final(graph),
                    logits@.dims,
                    categorical_of(logits@, first_word(old(self)@, logits@.dims), axis),
                    r,
                )
            },
    {
        proof {
            self.lemma_held(*graph);
        }
        if logits.graph_id() != self.key.0.graph_id() {
            return Err(err("categorical input belongs to another RNG graph"));
        }
        let (draw, available) = self.propose(graph, logits.shape())?;
        let ghost middle = *graph;
        let sample: CategoricalSample = match categorical_from_bits(
            graph,
            logits,
            &draw.bits.0,
            axis,
        ) {
            Ok(sample) => sample,
            Err(e) => {
                proof {
                    self.lemma_still_held(middle, *graph);
                }
                return Err(e);
            },
        };
        proof {
            self.lemma_still_held(middle, *graph);
        }
        let ThreefryBlocks { bits: _, next_counter, counter_wrapped: _ } = draw;
        self.advance(next_counter, available);
        Ok(sample)
    }

    /// A draw among the largest `k` logits, with one block per candidate.
    pub fn topk_categorical(
        &mut self,
        graph: &mut Graph,
        logits: &Tensor,
        k: usize,
        axis: usize,
    ) -> (r: Result<CategoricalSample, Error>)
        requires
            old(graph).wf(),
            old(self).held_by(*old(graph)),
            old(graph).admits(*logits),
        ensures
            final(graph).extends(*old(graph)),
            final(self).held_by(*final(graph)),
            if logits@.graph != old(graph).key() {
                r == Err::<CategoricalSample, Error>(
                    invalid("top-k categorical input belongs to another RNG graph"),
                ) && final(self)@ == old(self)@
            } else {
                match topk_sample_shape(logits@, k, axis) {
                    Err(e) => r == Err::<CategoricalSample, Error>(e) && final(self)@ == old(self)@,
                    Ok(shape) => chosen_from(
                        old(self)@,
                        final(self)@,
                        *final(graph),
                        shape,
                        topk_categorical_of(logits@, first_word(old(self)@, shape), k, axis),
                        r,
                    ),
                }
            },
    {
        proof {
            self.lemma_held(*graph);
        }
        if logits.graph_id() != self.key.0.graph_id() {
            return Err(err("top-k categorical input belongs to another RNG graph"));
        }
        let shape: Vec<i64> = candidate_shape(logits, k, axis)?;
        let (draw, available) = self.propose(graph, shape.as_slice())?;
        let ghost middle = *graph;
        let sample: CategoricalSample = match topk_categorical_from_bits(
            graph,
            logits,
            &draw.bits.0,
            k,
            axis,
        ) {
            Ok(sample) => sample,
            Err(e) => {
                proof {
                    self.lemma_still_held(middle, *graph);
                }
                return Err(e);
            },
        };
        proof {
            self.lemma_still_held(middle, *graph);
        }
        let ThreefryBlocks { bits: _, next_counter, counter_wrapped: _ } = draw;
        self.advance(next_counter, available);
        Ok(sample)
    }

    /// A nucleus draw, with one block per logit.
    pub fn top_p_categorical(
        &mut self,
        graph: &mut Graph,
        logits: &Tensor,
        p: u32,
        axis: usize,
    ) -> (r: Result<CategoricalSample, Error>)
        requires
            old(graph).wf(),
            old(self).held_by(*old(graph)),
            old(graph).admits(*logits),
        ensures
            final(graph).extends(*old(graph)),
            final(self).held_by(*final(graph)),
            if logits@.graph != old(graph).key() {
                r == Err::<CategoricalSample, Error>(
                    invalid("top-p categorical input belongs to another RNG graph"),
                ) && final(self)@ == old(self)@
            } else {
                chosen_from(
                    old(self)@,
                    final(self)@,
                    *final(graph),
                    logits@.dims,
                    top_p_categorical_of(logits@, first_word(old(self)@, logits@.dims), p, axis),
                    r,
                )
            },
    {
        proof {
            self.lemma_held(*graph);
        }
        if logits.graph_id() != self.key.0.graph_id() {
            return Err(err("top-p categorical input belongs to another RNG graph"));
        }
        let (draw, available) = self.propose(graph, logits.shape())?;
        let ghost middle = *graph;
        let sample: CategoricalSample = match top_p_categorical_from_bits(
            graph,
            logits,
            &draw.bits.0,
            p,
            axis,
        ) {
            Ok(sample) => sample,
            Err(e) => {
                proof {
                    self.lemma_still_held(middle, *graph);
                }
                return Err(e);
            },
        };
        proof {
            self.lemma_still_held(middle, *graph);
        }
        let ThreefryBlocks { bits: _, next_counter, counter_wrapped: _ } = draw;
        self.advance(next_counter, available);
        Ok(sample)
    }

    /// The refusal of a commit.
    fn check_origins(&self, graph: &StateGraph) -> (r: Result<(), Error>)
        requires
            graph.wf(),
        ensures
            match r {
                Ok(_) => stale_words(*graph, self@.slots, self@.origins, 4) is None,
                Err(e) => stale_words(*graph, self@.slots, self@.origins, 4) == Some(e),
            },
    {
        proof {
            reveal_with_fuel(stale_words, 5);
            self.state.lemma_four();
        }
        let slots: &[StateSlot; 4] = self.state.slots();
        let key: Tensor = graph.read(&slots[0])?;
        if key.node_id() != self.key.0.node_id() {
            return Err(err("stale Threefry sequence: state changed since begin"));
        }
        let key_next: Tensor = graph.read(&slots[1])?;
        if key_next.node_id() != self.key.1.node_id() {
            return Err(err("stale Threefry sequence: state changed since begin"));
        }
        let low: Tensor = graph.read(&slots[2])?;
        if low.node_id() != self.counter.0.node_id() {
            return Err(err("stale Threefry sequence: state changed since begin"));
        }
        let high: Tensor = graph.read(&slots[3])?;
        if high.node_id() != self.counter.1.node_id() {
            return Err(err("stale Threefry sequence: state changed since begin"));
        }
        Ok(())
    }

    /// Record both counter words where a scalar mask is not zero and the counter
    /// has not wrapped, and return that acceptance. Errors change no version.
    pub fn commit_if(self, graph: &mut StateGraph, condition: &Tensor) -> (r: Result<Tensor, Error>)
        requires
            old(graph).wf(),
            self.admitted_by(old(graph).tensors()),
            old(graph).tensors().admits(*condition),
        ensures
            match stale_words(*old(graph), self@.slots, self@.origins, 4) {
                Some(e) => r == Err::<Tensor, Error>(e) && *final(graph) == *old(graph),
                None => match acceptance(old(graph).schema(), condition@, self@.available) {
                    Expr::Fails(e) => r == Err::<Tensor, Error>(e) && final(graph).grows(
                        *old(graph),
                    ),
                    Expr::Is(accepted) => updates_recorded_if(
                        *old(graph),
                        *final(graph),
                        accepted,
                        commit_updates(self@),
                        match r {
                            Ok(t) => t@ == accepted && final(graph).tensors().owns(t),
                            Err(_) => false,
                        },
                        match r {
                            Ok(_) => None,
                            Err(e) => Some(e),
                        },
                    ),
                },
            },
    {
        self.check_origins(graph)?;
        let zero: Tensor = graph.tracer().scalar(Scalar::Bits(F32_ZERO))?;
        if condition.graph_id() != graph.owner() {
            proof {
                crate::facts::lemma_scalar_extents(graph.schema(), Scalar::Bits(F32_ZERO));
            }
            if condition.dtype() != DType::F32 {
                return Err(err("select mask must be F32"));
            }
            if self.available.dtype() != zero.dtype() {
                return Err(err("select branches must have the same dtype"));
            }
            if condition.graph_id() != self.available.graph_id() {
                return Err(err("cross-graph select operands"));
            }
            if condition.shape().len() != self.available.shape().len()
                || !crate::shape::same_dims(condition.shape(), self.available.shape()) {
                return Err(err("select shape mismatch; broadcasting must be explicit"));
            }
            return Err(err("cross-graph select operands"));
        }
        let accepted: Tensor = condition.select(graph.tracer(), &self.available, &zero)?;
        assert(graph.values() =~= old(graph).values());
        let slots: &[StateSlot; 4] = self.state.slots();
        proof {
            self.state.lemma_four();
        }
        let updates: Vec<(StateSlot, Tensor)> = vec![
            (slots[2], self.next.0.copy()),
            (slots[3], self.next.1.copy()),
        ];
        assert(update_values(updates@) =~= commit_updates(self@));
        graph.write_many_if(&accepted, &updates)?;
        Ok(accepted)
    }
}

/// A constant F32 tensor.
fn filled_with(graph: &mut Graph, bits: u32, shape: &[i64]) -> (r: Result<Tensor, Error>)
    requires
        old(graph).wf(),
    ensures
        final(graph).extends(*old(graph)),
        final(graph).yields(
            r,
            scalar(old(graph).key(), Scalar::Bits(bits)).broadcast_to(shape@),
        ),
{
    let value: Tensor = graph.scalar(Scalar::Bits(bits))?;
    value.broadcast_to(graph, shape)
}

/// A mask of the words that are below a probability.
fn below_mask(graph: &mut Graph, words: &Tensor, probability: u32, shape: &[i64]) -> (r: Result<
    Tensor,
    Error,
>)
    requires
        old(graph).wf(),
        old(graph).owns(*words),
    ensures
        final(graph).extends(*old(graph)),
        final(graph).yields(r, below(old(graph).key(), words.expr(), probability, shape@)),
{
    let uniform: Tensor = uniform_f32_from_bits(graph, words)?;
    let level: Tensor = filled_with(graph, probability, shape)?;
    uniform.lt_mask(graph, &level)
}

} // verus!
