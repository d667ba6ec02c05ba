//! Paired, fixed-capacity F32 inference state.
use crate::dtype::DType;
use crate::error::{err, invalid, Error};
use crate::graph::{scalar, scalar_i32, values_of, Expr, Graph, Tensor, Value};
use crate::indexing::dynamic_error;
use crate::op::{Scalar, F32_ONE};
use crate::shape::{bad_shape, same_dims, volume};
use crate::state::{
    current_pair, updates_recorded, pair_updates, slots_added, StateGraph, StateSlot,
};
use vstd::prelude::*;

verus! {

/// Symbolic key and value state of one state graph.
pub struct KvCache {
    keys: StateSlot,
    values: StateSlot,
}

/// The results of a bounds-checked paired update.
pub struct KvCacheUpdate {
    pub keys: Tensor,
    pub values: Tensor,
    /// Scalar F32 one for starts within bounds, zero when both caches stay
    /// unchanged.
    pub accepted: Tensor,
}

/// The proposed versions of a pair, or why there is none.
pub open spec fn proposed_pair(
    current: Result<(Value, Value), Error>,
    keys: Value,
    values: Value,
    starts: Seq<Value>,
) -> Result<(Value, Value), Error> {
    if keys.dims != values.dims {
        Err(invalid("K/V updates must have equal shapes"))
    } else {
        match current {
            Err(e) => Err(e),
            Ok((old_keys, old_values)) => match Expr::Is(old_keys).dynamic_update_slice(
                Expr::Is(keys),
                starts,
            ) {
                Expr::Fails(e) => Err(e),
                Expr::Is(k) => match Expr::Is(old_values).dynamic_update_slice(
                    Expr::Is(values),
                    starts,
                ) {
                    Expr::Fails(e) => Err(e),
                    Expr::Is(v) => Ok((k, v)),
                },
            },
        }
    }
}

/// Whether the starts of the first `count` axes fit without clamping, as an F32
/// mask.
pub open spec fn in_bounds(
    graph: u64,
    dims: Seq<i64>,
    sizes: Seq<i64>,
    starts: Seq<Value>,
    count: nat,
) -> Expr
    decreases count,
{
    if count == 0 {
        scalar(graph, Scalar::Bits(F32_ONE)).given(scalar_i32(graph, 0))
    } else {
        let axis = count - 1;
        let start = Expr::Is(starts[axis]);
        let lower = in_bounds(graph, dims, sizes, starts, axis as nat).mul(
            scalar_i32(graph, 0).le_mask(start),
        );
        let limit = dims[axis] - sizes[axis];
        if limit < 0x7fff_ffff {
            lower.mul(start.le_mask(scalar_i32(graph, limit as i32)))
        } else {
            lower
        }
    }
}

/// A failure at an early axis is the failure in the end.
proof fn lemma_in_bounds_fails(
    graph: u64,
    dims: Seq<i64>,
    sizes: Seq<i64>,
    starts: Seq<Value>,
    early: nat,
    count: nat,
)
    requires
        early <= count,
        in_bounds(graph, dims, sizes, starts, early) is Fails,
    ensures
        in_bounds(graph, dims, sizes, starts, count) == in_bounds(
            graph,
            dims,
            sizes,
            starts,
            early,
        ),
    decreases count - early,
{
    if early < count {
        lemma_in_bounds_fails(graph, dims, sizes, starts, early + 1, count);
    }
}

/// What a checked update gives: the versions that the mask of fitting starts
/// selects, and that mask.
pub open spec fn checked_pair(
    current: Result<(Value, Value), Error>,
    keys: Value,
    values: Value,
    starts: Seq<Value>,
) -> Result<(Value, Value, Value), Error> {
    match (proposed_pair(current, keys, values, starts), current) {
        (Err(e), _) => Err(e),
        (_, Err(e)) => Err(e),
        (Ok(proposed), Ok(old)) => chosen_pair(old, proposed, keys.dims, starts),
    }
}

/// What the mask of fitting starts selects of proposed versions, and that mask.
#[verifier::opaque]
pub open spec fn chosen_pair(
    old: (Value, Value),
    proposed: (Value, Value),
    sizes: Seq<i64>,
    starts: Seq<Value>,
) -> Result<(Value, Value, Value), Error> {
    let accepted = in_bounds(old.0.graph, old.0.dims, sizes, starts, starts.len()).detach();
    let mask = accepted.broadcast_to(old.0.dims);
    let chosen_keys = mask.select(Expr::Is(proposed.0), Expr::Is(old.0));
    let chosen_values = mask.select(Expr::Is(proposed.1), Expr::Is(old.1));
    match (accepted, mask, chosen_keys, chosen_values) {
        (Expr::Fails(e), _, _, _) => Err(e),
        (_, Expr::Fails(e), _, _) => Err(e),
        (_, _, Expr::Fails(e), _) => Err(e),
        (_, _, _, Expr::Fails(e)) => Err(e),
        (Expr::Is(a), Expr::Is(_), Expr::Is(k), Expr::Is(v)) => Ok((k, v, a)),
    }
}

impl KvCache {
    /// The slots of the pair.
    pub closed spec fn slots(self) -> (StateSlot, StateSlot) {
        (self.keys, self.values)
    }

    /// Register two F32 slots of the same extents.
    pub fn new(graph: &mut StateGraph, shape: &[i64]) -> (r: Result<KvCache, Error>)
        requires
            old(graph).wf(),
        ensures
            match r {
                Ok(cache) => {
                    &&& volume(shape@) is Some
                    &&& slots_added(
                        *old(graph),
                        *final(graph),
                        seq![cache.slots().0, cache.slots().1],
                        DType::F32,
                        shape@,
                    )
                },
                Err(e) => volume(shape@) is None && e == bad_shape() && *final(graph) == *old(
                    graph,
                ),
            },
    {
        let slots: Vec<StateSlot> = graph.add_slots(shape, DType::F32, 2)?;
        assert(slots@ =~= seq![slots@[0], slots@[1]]);
        Ok(KvCache { keys: slots[0], values: slots[1] })
    }

    /// The slot of the keys.
    pub fn key_slot(&self) -> (r: &StateSlot)
        ensures
            *r == self.slots().0,
    {
        &self.keys
    }

    /// The slot of the values.
    pub fn value_slot(&self) -> (r: &StateSlot)
        ensures
            *r == self.slots().1,
    {
        &self.values
    }

    /// The current versions of both.
    pub fn read(&self, graph: &StateGraph) -> (r: Result<(Tensor, Tensor), Error>)
        requires
            graph.wf(),
        ensures
            match r {
                Ok((k, v)) => {
                    &&& current_pair(*graph, self.slots()) == Ok::<(Value, Value), Error>((k@, v@))
                    &&& graph.tensors().owns(k)
                    &&& graph.tensors().owns(v)
                    &&& k.id() == graph.versions()[self.slots().0.index as int].id()
                    &&& v.id() == graph.versions()[self.slots().1.index as int].id()
                },
                Err(e) => current_pair(*graph, self.slots()) == Err::<(Value, Value), Error>(e),
            },
    {
        let keys: Tensor = graph.read(&self.keys)?;
        let values: Tensor = graph.read(&self.values)?;
        Ok((keys, values))
    }

    /// Record a paired update at runtime starts, which are clamped. Neither
    /// slot advances on an error.
    pub fn update_at(
        &mut self,
        graph: &mut StateGraph,
        keys: &Tensor,
        values: &Tensor,
        starts: &[Tensor],
    ) -> (r: Result<(Tensor, Tensor), Error>)
        requires
            old(graph).wf(),
            old(graph).tensors().admits(*keys),
            old(graph).tensors().admits(*values),
            old(graph).tensors().admits_all(starts@),
        ensures
            *final(self) == *old(self),
            match proposed_pair(
                current_pair(*old(graph), old(self).slots()),
                keys@,
                values@,
                values_of(starts@),
            ) {
                Err(e) => r == Err::<(Tensor, Tensor), Error>(e) && final(graph).grows(*old(graph)),
                Ok((k, v)) => updates_recorded(
                    *old(graph),
                    *final(graph),
                    pair_updates(old(self).slots(), k, v),
                    match r {
                        Ok((t, u)) => {
                            &&& t@ == k
                            &&& u@ == v
                            &&& final(graph).tensors().owns(t)
                            &&& final(graph).tensors().owns(u)
                        },
                        Err(_) => false,
                    },
                    match r {
                        Ok(_) => None,
                        Err(e) => Some(e),
                    },
                ),
            },
    {
        if !same_dims(keys.shape(), values.shape()) {
            return Err(err("K/V updates must have equal shapes"));
        }
        let (old_keys, old_values) = self.read(graph)?;
        let (new_keys, new_values) = propose(
            graph.tracer(),
            (&old_keys, &old_values),
            (keys, values),
            starts,
        )?;
        let ghost grown = *graph;
        let updates: Vec<(StateSlot, Tensor)> = vec![
            (self.keys, new_keys.copy()),
            (self.values, new_values.copy()),
        ];
        proof {
            assert(crate::state::update_values(updates@) =~= pair_updates(
                self.slots(),
                new_keys@,
                new_values@,
            ));
            assert(grown.values() =~= old(graph).values());
        }
        graph.record_updates(&updates)?;
        Ok((new_keys, new_values))
    }

    /// Record a paired update only where every runtime start fits without
    /// clamping: otherwise both caches keep their versions and `accepted` is
    /// zero. Neither slot advances on an error.
    pub fn update_at_checked(
        &mut self,
        graph: &mut StateGraph,
        keys: &Tensor,
        values: &Tensor,
        starts: &[Tensor],
    ) -> (r: Result<KvCacheUpdate, Error>)
        requires
            old(graph).wf(),
            old(graph).tensors().admits(*keys),
            old(graph).tensors().admits(*values),
            old(graph).tensors().admits_all(starts@),
        ensures
            *final(self) == *old(self),
            match checked_pair(
                current_pair(*old(graph), old(self).slots()),
                keys@,
                values@,
                values_of(starts@),
            ) {
                Err(e) => r == Err::<KvCacheUpdate, Error>(e) && final(graph).grows(*old(graph)),
                Ok((k, v, a)) => updates_recorded(
                    *old(graph),
                    *final(graph),
                    pair_updates(old(self).slots(), k, v),
                    match r {
                        Ok(update) => {
                            &&& update.keys@ == k
                            &&& update.values@ == v
                            &&& update.accepted@ == a
                            &&& final(graph).tensors().owns(update.keys)
                            &&& final(graph).tensors().owns(update.values)
                            &&& final(graph).tensors().owns(update.accepted)
                        },
                        Err(_) => false,
                    },
                    match r {
                        Ok(_) => None,
                        Err(e) => Some(e),
                    },
                ),
            },
    {
        if !same_dims(keys.shape(), values.shape()) {
            return Err(err("K/V updates must have equal shapes"));
        }
        let (old_keys, old_values) = self.read(graph)?;
        let (new_keys, new_values) = propose(
            graph.tracer(),
            (&old_keys, &old_values),
            (keys, values),
            starts,
        )?;
        proof {
            assert(dynamic_error(
                old_keys@.graph,
                old_keys@.dims,
                values_of(starts@),
                keys@.dims,
            ) is None);
            assert forall|k: int| 0 <= k < starts@.len() implies #[trigger] graph.tensors().admits(
                starts@[k],
            ) by {
                assert(old(graph).tensors().admits(starts@[k]));
            }
        }
        let (chosen_keys, chosen_values, accepted) = choose_versions(
            graph.tracer(),
            (&old_keys, &old_values),
            (&new_keys, &new_values),
            keys.shape(),
            starts,
        )?;
        let ghost grown = *graph;
        let updates: Vec<(StateSlot, Tensor)> = vec![
            (self.keys, chosen_keys.copy()),
            (self.values, chosen_values.copy()),
        ];
        proof {
            assert(crate::state::update_values(updates@) =~= pair_updates(
                self.slots(),
                chosen_keys@,
                chosen_values@,
            ));
            assert(grown.values() =~= old(graph).values());
        }
        graph.record_updates(&updates)?;
        Ok(KvCacheUpdate { keys: chosen_keys, values: chosen_values, accepted })
    }
}

/// The proposed versions of a pair.
fn propose(
    graph: &mut Graph,
    old_pair: (&Tensor, &Tensor),
    updates: (&Tensor, &Tensor),
    starts: &[Tensor],
) -> (r: Result<(Tensor, Tensor), Error>)
    requires
        old(graph).wf(),
        old(graph).owns(*old_pair.0),
        old(graph).owns(*old_pair.1),
        old(graph).admits(*updates.0),
        old(graph).admits(*updates.1),
        updates.0@.dims == updates.1@.dims,
        old(graph).admits_all(starts@),
    ensures
        final(graph).extends(*old(graph)),
        match r {
            Ok((k, v)) => {
                &&& final(graph).owns(k)
                &&& final(graph).owns(v)
                &&& proposed_pair(
                    Ok((old_pair.0@, old_pair.1@)),
                    updates.0@,
                    updates.1@,
                    values_of(starts@),
                ) == Ok::<(Value, Value), Error>((k@, v@))
            },
            Err(e) => proposed_pair(
                Ok((old_pair.0@, old_pair.1@)),
                updates.0@,
                updates.1@,
                values_of(starts@),
            ) == Err::<(Value, Value), Error>(e),
        },
{
    let keys: Tensor = old_pair.0.dynamic_update_slice(graph, updates.0, starts)?;
    assert(graph.admits_all(starts@)) by {
        assert forall|k: int| 0 <= k < starts@.len() implies #[trigger] graph.admits(
            starts@[k],
        ) by {
            assert(old(graph).admits(starts@[k]));
        }
    }
    let values: Tensor = old_pair.1.dynamic_update_slice(graph, updates.1, starts)?;
    Ok((keys, values))
}

/// What the mask of fitting starts selects, and that mask.
fn choose_versions(
    graph: &mut Graph,
    old_pair: (&Tensor, &Tensor),
    new_pair: (&Tensor, &Tensor),
    sizes: &[i64],
    starts: &[Tensor],
) -> (r: Result<(Tensor, Tensor, Tensor), Error>)
    requires
        old(graph).wf(),
        old(graph).owns(*old_pair.0),
        old(graph).owns(*old_pair.1),
        old(graph).owns(*new_pair.0),
        old(graph).owns(*new_pair.1),
        old(graph).admits_all(starts@),
        dynamic_error(old_pair.0@.graph, old_pair.0@.dims, values_of(starts@), sizes@) is None,
    ensures
        final(graph).extends(*old(graph)),
        match r {
            Ok((k, v, a)) => {
                &&& final(graph).owns(k)
                &&& final(graph).owns(v)
                &&& final(graph).owns(a)
                &&& chosen_pair(
                    (old_pair.0@, old_pair.1@),
                    (new_pair.0@, new_pair.1@),
                    sizes@,
                    values_of(starts@),
                ) == Ok::<(Value, Value, Value), Error>((k@, v@, a@))
            },
            Err(e) => chosen_pair(
                (old_pair.0@, old_pair.1@),
                (new_pair.0@, new_pair.1@),
                sizes@,
                values_of(starts@),
            ) == Err::<(Value, Value, Value), Error>(e),
        },
{
    proof {
        reveal(chosen_pair);
    }
    let fitting: Tensor = start_mask(graph, old_pair.0.shape(), sizes, starts)?;
    let accepted: Tensor = fitting.detach(graph)?;
    let mask: Tensor = accepted.broadcast_to(graph, old_pair.0.shape())?;
    let keys: Tensor = mask.select(graph, new_pair.0, old_pair.0)?;
    let values: Tensor = mask.select(graph, new_pair.1, old_pair.1)?;
    Ok((keys, values, accepted))
}

/// The mask of starts that fit without clamping.
fn start_mask(graph: &mut Graph, dims: &[i64], sizes: &[i64], starts: &[Tensor]) -> (r: Result<
    Tensor,
    Error,
>)
    requires
        old(graph).wf(),
        old(graph).admits_all(starts@),
        dynamic_error(old(graph).key(), dims@, values_of(starts@), sizes@) is None,
    ensures
        final(graph).extends(*old(graph)),
        final(graph).yields(
            r,
            in_bounds(
                old(graph).key(),
                dims@,
                sizes@,
                values_of(starts@),
                starts@.len(),
            ),
        ),
{
    let ghost key = graph.key();
    let ghost values = values_of(starts@);
    let ghost all = starts@.len();
    proof {
        if in_bounds(key, dims@, sizes@, values, 0) is Fails {
            lemma_in_bounds_fails(key, dims@, sizes@, values, 0, all);
        }
    }
    let zero: Tensor = graph.scalar_i32(0)?;
    let mut accepted: Tensor = graph.scalar(Scalar::Bits(F32_ONE))?;
    let mut axis: usize = 0;
    while axis < starts.len()
        invariant
            graph.extends(*old(graph)),
            old(graph).wf(),
            old(graph).admits_all(starts@),
            key == old(graph).key(),
            values == values_of(starts@),
            all == starts@.len(),
            dynamic_error(key, dims@, values, sizes@) is None,
            graph.owns(zero),
            scalar_i32(key, 0) == Expr::Is(zero@),
            graph.owns(accepted),
            axis <= starts@.len(),
            in_bounds(key, dims@, sizes@, values, axis as nat) == Expr::Is(accepted@),
        decreases starts@.len() - axis,
    {
        let ghost next = (axis + 1) as nat;
        let start: &Tensor = &starts[axis];
        proof {
            assert(old(graph).admits(starts@[axis as int]));
            assert(values[axis as int] == start@);
            assert(graph.owns(*start));
            if in_bounds(key, dims@, sizes@, values, next) is Fails {
                lemma_in_bounds_fails(key, dims@, sizes@, values, next, all);
            }
            assert(0 <= sizes@[axis as int] <= dims@[axis as int]);
        }
        let low: Tensor = zero.le_mask(graph, start)?;
        accepted = accepted.mul(graph, &low)?;
        let limit: i64 = dims[axis] - sizes[axis];
        if limit < 0x7fff_ffff {
            let bound: Tensor = graph.scalar_i32(limit as i32)?;
            let high: Tensor = start.le_mask(graph, &bound)?;
            accepted = accepted.mul(graph, &high)?;
        }
        axis += 1;
    }
    Ok(accepted)
}

} // verus!
