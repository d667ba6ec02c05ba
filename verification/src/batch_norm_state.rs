//! Resident running statistics of batch normalization.
use crate::dtype::DType;
use crate::error::{err, invalid, Error};
use crate::graph::{Expr, Graph, Tensor, Value};
use crate::nn::BatchNormTraining;
use crate::op::{f32_nan, f32_order, is_nan, order, Scalar, F32_ONE, F32_ZERO};
use crate::shape::{same_dims, volume};
use crate::state::{
    conditionally_recorded, current_pair, updates_recorded, updates_recorded_if, pair_updates,
    recorded_updates, slot_refusal, slots_added, update_values, StateGraph, StateSlot,
};
use crate::state_tree::{visits_view, StateTree};
use vstd::prelude::*;

verus! {

/// Two running-statistic slots of one state graph.
pub struct BatchNormState {
    mean: StateSlot,
    variance: StateSlot,
    channels: usize,
}

/// Proposed running statistics. Nothing is written before a commit.
pub struct BatchNormUpdate {
    state: BatchNormState,
    original: (Tensor, Tensor),
    proposed: (Tensor, Tensor),
}

/// Whether a rate is a number from zero to one.
pub open spec fn rate_valid(rate: u32) -> bool {
    !f32_nan(rate) && 0 <= f32_order(rate) <= f32_order(F32_ONE)
}

/// A running statistic moved towards that of a batch. A rate of zero keeps the
/// old value and a rate of one replaces it, whatever the other one is.
#[verifier::opaque]
pub open spec fn blended(rate: u32, old_value: Value, new_value: Value) -> Expr {
    if f32_order(rate) == 0 {
        Expr::Is(old_value)
    } else if f32_order(rate) == f32_order(F32_ONE) {
        Expr::Is(new_value).detach()
    } else {
        Expr::Is(old_value).mul_scalar(Scalar::OneMinus(rate)).add(
            Expr::Is(new_value).detach().mul_scalar(Scalar::Bits(rate)),
        )
    }
}

/// Why a batch statistic is refused.
pub open spec fn statistic_refusal(graph: u64, channels: usize, value: Value) -> Option<Error> {
    if value.dims != seq![channels as i64] {
        Some(invalid("BatchNorm statistics shape mismatch"))
    } else if value.graph != graph {
        Some(invalid("cross-graph BatchNorm statistics"))
    } else {
        None
    }
}

/// The proposed statistics, or why there are none.
pub open spec fn proposed_statistics(
    current: Result<(Value, Value), Error>,
    channels: usize,
    batch: (Value, Value),
    rate: u32,
) -> Result<(Value, Value), Error> {
    if !rate_valid(rate) {
        Err(invalid("BatchNorm update rate must be finite and in [0,1]"))
    } else {
        match current {
            Err(e) => Err(e),
            Ok((mean, variance)) => match (
                statistic_refusal(mean.graph, channels, batch.0),
                statistic_refusal(mean.graph, channels, batch.1),
            ) {
                (Some(e), _) => Err(e),
                (None, Some(e)) => Err(e),
                (None, None) => match (
                    blended(rate, mean, batch.0),
                    blended(rate, variance, batch.1),
                ) {
                    (Expr::Fails(e), _) => Err(e),
                    (_, Expr::Fails(e)) => Err(e),
                    (Expr::Is(m), Expr::Is(v)) => Ok((m, v)),
                },
            },
        }
    }
}

/// A running statistic moved towards that of a batch.
fn blend(graph: &mut Graph, rate: u32, old_value: &Tensor, new_value: &Tensor) -> (r: Result<
    Tensor,
    Error,
>)
    requires
        old(graph).wf(),
        old(graph).owns(*old_value),
        old(graph).owns(*new_value),
    ensures
        final(graph).extends(*old(graph)),
        final(graph).yields(r, blended(rate, old_value@, new_value@)),
{
    proof {
        reveal(blended);
        reveal(Expr::mul_scalar);
    }
    if order(rate) == 0 {
        Ok(old_value.copy())
    } else if order(rate) == order(F32_ONE) {
        new_value.detach(graph)
    } else {
        let kept: Tensor = old_value.mul_scalar(graph, Scalar::OneMinus(rate))?;
        let fresh: Tensor = new_value.detach(graph)?.mul_scalar(graph, Scalar::Bits(rate))?;
        kept.add(graph, &fresh)
    }
}

/// The refusal of a batch statistic.
fn check_statistic(graph: u64, channels: usize, value: &Tensor) -> (r: Result<(), Error>)
    requires
        value.wf(),
        channels <= i64::MAX,
    ensures
        match r {
            Ok(_) => statistic_refusal(graph, channels, value@) is None,
            Err(e) => statistic_refusal(graph, channels, value@) == Some(e),
        },
{
    let size: i64 = channels as i64;
    let expected: Vec<i64> = vec![size];
    assert(expected@ =~= seq![channels as i64]);
    if !same_dims(value.shape(), expected.as_slice()) {
        return Err(err("BatchNorm statistics shape mismatch"));
    }
    if value.graph_id() != graph {
        return Err(err("cross-graph BatchNorm statistics"));
    }
    Ok(())
}

/// Copies of a list of F32 bits.
fn repeated(bits: u32, count: usize) -> (r: Vec<u32>)
    ensures
        r@ == Seq::new(count as nat, |k: int| bits),
{
    let mut list: Vec<u32> = Vec::new();
    let mut i: usize = 0;
    while i < count
        invariant
            i <= count,
            list@ == Seq::new(i as nat, |k: int| bits),
        decreases count - i,
    {
        list.push(bits);
        i += 1;
        assert(list@ =~= Seq::new(i as nat, |k: int| bits));
    }
    list
}

impl BatchNormState {
    /// The slots of mean and variance.
    pub closed spec fn slots(self) -> (StateSlot, StateSlot) {
        (self.mean, self.variance)
    }

    /// The number of channels.
    pub closed spec fn width(self) -> usize {
        self.channels
    }

    /// The number of channels is an extent.
    pub closed spec fn wf(self) -> bool {
        0 < self.channels <= i64::MAX
    }

    /// Another handle to the same slots.
    pub fn duplicate(&self) -> (r: BatchNormState)
        ensures
            r == *self,
    {
        BatchNormState { mean: self.mean, variance: self.variance, channels: self.channels }
    }

    /// Register the two slots.
    pub fn new(graph: &mut StateGraph, channels: i64) -> (r: Result<BatchNormState, Error>)
        requires
            old(graph).wf(),
        ensures
            match r {
                Ok(state) => {
                    &&& 0 < channels <= usize::MAX
                    &&& state.wf()
                    &&& state.width() == channels
                    &&& slots_added(
                        *old(graph),
                        *final(graph),
                        seq![state.slots().0, state.slots().1],
                        DType::F32,
                        seq![channels],
                    )
                },
                Err(e) => {
                    &&& *final(graph) == *old(graph)
                    &&& if channels <= 0 {
                        e == invalid("BatchNorm state requires positive channels")
                    } else {
                        channels > usize::MAX && e == invalid("BatchNorm channel count overflow")
                    }
                },
            },
    {
        if channels <= 0 {
            return Err(err("BatchNorm state requires positive channels"));
        }
        let wide: u64 = channels as u64;
        if wide > usize::MAX as u64 {
            return Err(err("BatchNorm channel count overflow"));
        }
        let size: usize = channels as usize;
        let dims: Vec<i64> = vec![channels];
        proof {
            assert(dims@ =~= seq![channels]);
            reveal_with_fuel(volume, 2);
            assert(dims@.drop_last().len() == 0);
            assert(1 * channels == channels) by (nonlinear_arith);
            assert(volume(dims@) is Some);
        }
        let slots: Vec<StateSlot> = graph.add_slots(dims.as_slice(), DType::F32, 2)?;
        assert(slots@ =~= seq![slots@[0], slots@[1]]);
        Ok(BatchNormState { mean: slots[0], variance: slots[1], channels: size })
    }

    /// The initial contents of the slots, as F32 bits: means of zero, variances
    /// of one.
    pub fn initial_state(&self) -> (r: Vec<(StateSlot, Vec<u32>)>)
        ensures
            r@.len() == 2,
            r@[0].0 == self.slots().0,
            r@[0].1@ == Seq::new(self.width() as nat, |k: int| F32_ZERO),
            r@[1].0 == self.slots().1,
            r@[1].1@ == Seq::new(self.width() as nat, |k: int| F32_ONE),
    {
        vec![
            (self.mean, repeated(F32_ZERO, self.channels)),
            (self.variance, repeated(F32_ONE, self.channels)),
        ]
    }

    /// The slot of the mean.
    pub fn mean_slot(&self) -> (r: &StateSlot)
        ensures
            *r == self.slots().0,
    {
        &self.mean
    }

    /// The slot of the variance.
    pub fn variance_slot(&self) -> (r: &StateSlot)
        ensures
            *r == self.slots().1,
    {
        &self.variance
    }

    /// The current versions of both.
    pub fn read(&self, graph: &StateGraph) -> (r: Result<(Tensor, Tensor), Error>)
        requires
            graph.wf(),
        ensures
            match r {
                Ok((m, v)) => {
                    &&& current_pair(*graph, self.slots()) == Ok::<(Value, Value), Error>((m@, v@))
                    &&& graph.tensors().owns(m)
                    &&& graph.tensors().owns(v)
                    &&& m.id() == graph.versions()[self.slots().0.index as int].id()
                    &&& v.id() == graph.versions()[self.slots().1.index as int].id()
                },
                Err(e) => current_pair(*graph, self.slots()) == Err::<(Value, Value), Error>(e),
            },
    {
        let mean: Tensor = graph.read(&self.mean)?;
        let variance: Tensor = graph.read(&self.variance)?;
        Ok((mean, variance))
    }

    /// Build proposals of `(1 - rate) * old + rate * batch` without writing
    /// anything.
    pub fn prepare(&self, graph: &mut StateGraph, batch: &BatchNormTraining, rate: u32) -> (r:
        Result<BatchNormUpdate, Error>)
        requires
            self.wf(),
            old(graph).wf(),
            old(graph).tensors().admits(batch.mean),
            old(graph).tensors().admits(batch.variance),
        ensures
            final(graph).grows(*old(graph)),
            match r {
                Ok(update) => {
                    &&& update.slots() == self.slots()
                    &&& final(graph).tensors().owns(update.next().0)
                    &&& final(graph).tensors().owns(update.next().1)
                    &&& update.origins() == (
                        old(graph).versions()[self.slots().0.index as int].id(),
                        old(graph).versions()[self.slots().1.index as int].id(),
                    )
                    &&& proposed_statistics(
                        current_pair(*old(graph), self.slots()),
                        self.width(),
                        (batch.mean@, batch.variance@),
                        rate,
                    ) == Ok::<(Value, Value), Error>((update.next().0@, update.next().1@))
                    &&& current_pair(*old(graph), self.slots()) is Ok
                },
                Err(e) => proposed_statistics(
                    current_pair(*old(graph), self.slots()),
                    self.width(),
                    (batch.mean@, batch.variance@),
                    rate,
                ) == Err::<(Value, Value), Error>(e),
            },
    {
        if is_nan(rate) || order(rate) < 0 || order(rate) > order(F32_ONE) {
            return Err(err("BatchNorm update rate must be finite and in [0,1]"));
        }
        let (mean, variance) = self.read(graph)?;
        check_statistic(mean.graph_id(), self.channels, &batch.mean)?;
        check_statistic(mean.graph_id(), self.channels, &batch.variance)?;
        let next_mean: Tensor = blend(graph.tracer(), rate, &mean, &batch.mean)?;
        let next_variance: Tensor = blend(graph.tracer(), rate, &variance, &batch.variance)?;
        Ok(
            BatchNormUpdate {
                state: self.duplicate(),
                original: (mean, variance),
                proposed: (next_mean, next_variance),
            },
        )
    }

    /// Record `(1 - rate) * old + rate * batch` for both statistics.
    pub fn update(&self, graph: &mut StateGraph, batch: &BatchNormTraining, rate: u32) -> (r:
        Result<(), Error>)
        requires
            self.wf(),
            old(graph).wf(),
            old(graph).tensors().admits(batch.mean),
            old(graph).tensors().admits(batch.variance),
        ensures
            match proposed_statistics(
                current_pair(*old(graph), self.slots()),
                self.width(),
                (batch.mean@, batch.variance@),
                rate,
            ) {
                Err(e) => r == Err::<(), Error>(e) && final(graph).grows(*old(graph)),
                Ok((m, v)) => updates_recorded(
                    *old(graph),
                    *final(graph),
                    pair_updates(self.slots(), m, v),
                    r is Ok,
                    match r {
                        Ok(_) => None,
                        Err(e) => Some(e),
                    },
                ),
            },
    {
        let update: BatchNormUpdate = self.prepare(graph, batch, rate)?;
        assert(graph.values() =~= old(graph).values());
        update.commit(graph)
    }

    /// Record both statistics where a scalar mask is not zero.
    pub fn update_if(
        &self,
        graph: &mut StateGraph,
        batch: &BatchNormTraining,
        rate: u32,
        condition: &Tensor,
    ) -> (r: Result<(), Error>)
        requires
            self.wf(),
            old(graph).wf(),
            old(graph).tensors().admits(batch.mean),
            old(graph).tensors().admits(batch.variance),
            old(graph).tensors().admits(*condition),
        ensures
            match proposed_statistics(
                current_pair(*old(graph), self.slots()),
                self.width(),
                (batch.mean@, batch.variance@),
                rate,
            ) {
                Err(e) => r == Err::<(), Error>(e) && final(graph).grows(*old(graph)),
                Ok((m, v)) => updates_recorded_if(
                    *old(graph),
                    *final(graph),
                    condition@,
                    pair_updates(self.slots(), m, v),
                    r is Ok,
                    match r {
                        Ok(_) => None,
                        Err(e) => Some(e),
                    },
                ),
            },
    {
        let update: BatchNormUpdate = self.prepare(graph, batch, rate)?;
        assert(graph.values() =~= old(graph).values());
        update.commit_if(graph, condition)
    }
}

impl StateTree for BatchNormState {
    fn visit_states(&self) -> (r: Vec<(String, StateSlot)>)
        ensures
            visits_view(r@) == seq![("mean"@, self.slots().0), ("variance"@, self.slots().1)],
    {
        let list: Vec<(String, StateSlot)> = vec![
            ("mean".to_owned(), self.mean),
            ("variance".to_owned(), self.variance),
        ];
        assert(visits_view(list@) =~= seq![
            ("mean"@, self.slots().0),
            ("variance"@, self.slots().1),
        ]);
        list
    }
}

/// Why a commit is refused: a slot of another schema, or one that has changed.
pub open spec fn stale_statistics(
    state: StateGraph,
    slots: (StateSlot, StateSlot),
    origins: (usize, usize),
) -> Option<Error> {
    let stale = invalid("stale BatchNorm update: statistics changed since prepare");
    match slot_refusal(state.schema(), state.versions().len(), slots.0) {
        Some(e) => Some(e),
        None => if state.versions()[slots.0.index as int].id() != origins.0 {
            Some(stale)
        } else {
            match slot_refusal(state.schema(), state.versions().len(), slots.1) {
                Some(e) => Some(e),
                None => if state.versions()[slots.1.index as int].id() != origins.1 {
                    Some(stale)
                } else {
                    None
                },
            }
        },
    }
}

impl BatchNormUpdate {
    /// The slots of mean and variance.
    pub closed spec fn slots(self) -> (StateSlot, StateSlot) {
        self.state.slots()
    }

    /// The positions of the versions that the proposals start from.
    pub closed spec fn origins(self) -> (usize, usize) {
        (self.original.0.id(), self.original.1.id())
    }

    /// The proposed versions.
    pub closed spec fn next(self) -> (Tensor, Tensor) {
        self.proposed
    }

    /// Scalar F32 mask: whether every proposed element is finite.
    pub fn finite_mask(&self, graph: &mut Graph) -> (r: Result<Tensor, Error>)
        requires
            old(graph).wf(),
            old(graph).owns(self.next().0),
            old(graph).owns(self.next().1),
        ensures
            final(graph).extends(*old(graph)),
            final(graph).yields(
                r,
                self.next().0.expr().is_finite_mask().min(seq![0usize], false).mul(
                    self.next().1.expr().is_finite_mask().min(seq![0usize], false),
                ),
            ),
    {
        proof {
            reveal(Expr::reduce);
        }
        let axes: Vec<usize> = vec![0];
        assert(axes@ =~= seq![0usize]);
        let mean: Tensor = self.proposed.0.is_finite_mask(graph)?.min(
            graph,
            axes.as_slice(),
            false,
        )?;
        let variance: Tensor = self.proposed.1.is_finite_mask(graph)?.min(
            graph,
            axes.as_slice(),
            false,
        )?;
        mean.mul(graph, &variance)
    }

    /// The refusal of a commit.
    fn check_origins(&self, graph: &StateGraph) -> (r: Result<(), Error>)
        requires
            graph.wf(),
        ensures
            match r {
                Ok(_) => stale_statistics(*graph, self.slots(), self.origins()) is None,
                Err(e) => stale_statistics(*graph, self.slots(), self.origins()) == Some(e),
            },
    {
        let mean: Tensor = graph.read(&self.state.mean)?;
        if mean.node_id() != self.original.0.node_id() {
            return Err(err("stale BatchNorm update: statistics changed since prepare"));
        }
        let variance: Tensor = graph.read(&self.state.variance)?;
        if variance.node_id() != self.original.1.node_id() {
            return Err(err("stale BatchNorm update: statistics changed since prepare"));
        }
        Ok(())
    }

    /// The proposed writes.
    fn updates(&self) -> (r: Vec<(StateSlot, Tensor)>)
        ensures
            r@.len() == 2,
            r@[0].0 == self.slots().0,
            r@[0].1@ == self.next().0@,
            r@[0].1.id() == self.next().0.id(),
            self.next().0.wf() ==> r@[0].1.wf(),
            r@[1].0 == self.slots().1,
            r@[1].1@ == self.next().1@,
            r@[1].1.id() == self.next().1.id(),
            self.next().1.wf() ==> r@[1].1.wf(),
    {
        vec![
            (self.state.mean, self.proposed.0.copy()),
            (self.state.variance, self.proposed.1.copy()),
        ]
    }

    /// Record both proposals. Statistics that have changed since, and slots of
    /// another schema, are refused with nothing changed.
    pub fn commit(self, graph: &mut StateGraph) -> (r: Result<(), Error>)
        requires
            old(graph).wf(),
            old(graph).tensors().admits(self.next().0),
            old(graph).tensors().admits(self.next().1),
        ensures
            match stale_statistics(*old(graph), self.slots(), self.origins()) {
                Some(e) => r == Err::<(), Error>(e) && *final(graph) == *old(graph),
                None => recorded_updates(
                    *old(graph),
                    *final(graph),
                    r,
                    pair_updates(self.slots(), self.next().0@, self.next().1@),
                ),
            },
    {
        self.check_origins(graph)?;
        let updates: Vec<(StateSlot, Tensor)> = self.updates();
        assert(update_values(updates@) =~= pair_updates(
            self.slots(),
            self.next().0@,
            self.next().1@,
        ));
        graph.record_updates(&updates)
    }

    /// Record both proposals where a scalar mask is not zero.
    pub fn commit_if(self, graph: &mut StateGraph, condition: &Tensor) -> (r: Result<(), Error>)
        requires
            old(graph).wf(),
            old(graph).tensors().admits(self.next().0),
            old(graph).tensors().admits(self.next().1),
            old(graph).tensors().admits(*condition),
        ensures
            match stale_statistics(*old(graph), self.slots(), self.origins()) {
                Some(e) => r == Err::<(), Error>(e) && *final(graph) == *old(graph),
                None => conditionally_recorded(
                    *old(graph),
                    *final(graph),
                    r,
                    condition@,
                    pair_updates(self.slots(), self.next().0@, self.next().1@),
                ),
            },
    {
        self.check_origins(graph)?;
        let updates: Vec<(StateSlot, Tensor)> = self.updates();
        assert(update_values(updates@) =~= pair_updates(
            self.slots(),
            self.next().0@,
            self.next().1@,
        ));
        graph.write_many_if(condition, &updates)
    }
}

} // verus!
