//! The boundary of a program: which parameters it needs, and the types of its
//! inputs and outputs.
use crate::error::{err, invalid, Error};
use crate::graph::{
    is_parameter, lemma_parameter_total_grows, number_of, parameter_total, type_of, values_of,
    Graph, Node, Tensor, TensorType, TypeModel, Value,
};
use crate::op::{Op, OpModel};
use vstd::prelude::*;

verus! {

/// The inputs and outputs of a program, in order.
pub struct Interface {
    /// Registration numbers of the parameters, in runtime order.
    pub parameters: Vec<usize>,
    pub inputs: Vec<TensorType>,
    pub outputs: Vec<TensorType>,
}

/// The types of a list.
pub open spec fn types_view(types: Seq<TensorType>) -> Seq<TypeModel> {
    Seq::new(types.len(), |k: int| types[k]@)
}

/// Whether the value of an operation depends on an operand. Substituted
/// derivatives do not take part in it.
pub open spec fn forwards(op: OpModel, operand: int) -> bool {
    operand == 0 || !(op is WithGradient || op is WithElementwiseDerivative)
}

/// Whether the value of an operation depends on an operand.
fn is_forward(op: &Op, operand: usize) -> (r: bool)
    ensures
        r == forwards(op@, operand as int),
{
    match op {
        Op::WithGradient => operand == 0,
        Op::WithElementwiseDerivative => operand == 0,
        _ => true,
    }
}

/// Whether a value is computed from another, as an operand.
pub open spec fn uses(
    values: Seq<Value>,
    wires: Seq<Seq<usize>>,
    from: int,
    operand: int,
    to: int,
) -> bool {
    0 <= operand < wires[from].len() && wires[from][operand] == to && forwards(
        values[from].op,
        operand,
    )
}

/// Whether the value at a position contributes to one of the roots.
pub open spec fn needed(
    values: Seq<Value>,
    wires: Seq<Seq<usize>>,
    roots: Seq<usize>,
    at: int,
) -> bool
    decreases wires.len() - at,
{
    roots.contains(at as usize) || (at < wires.len() && exists|from: int, operand: int|
        at < from < wires.len() && #[trigger] uses(values, wires, from, operand, at) && needed(
            values,
            wires,
            roots,
            from,
        ))
}

/// The positions, among the first `count`, of the parameters that a program
/// keeps.
pub open spec fn kept_positions(
    values: Seq<Value>,
    wires: Seq<Seq<usize>>,
    roots: Seq<usize>,
    preserve_all: bool,
    count: nat,
) -> Seq<int>
    decreases count,
{
    if count == 0 {
        Seq::empty()
    } else {
        let rest = kept_positions(values, wires, roots, preserve_all, (count - 1) as nat);
        if is_parameter(values[count - 1].op) && (preserve_all || needed(values, wires, roots, count - 1)) {
            rest.push(count - 1)
        } else {
            rest
        }
    }
}

/// The registration numbers at the given positions.
pub open spec fn numbers_at(values: Seq<Value>, positions: Seq<int>) -> Seq<usize> {
    Seq::new(positions.len(), |k: int| number_of(values[positions[k]].op))
}

/// Whether parameters are numbered in the order of their registration.
pub open spec fn in_order(values: Seq<Value>) -> bool {
    forall|i: int|
        0 <= i < values.len() && is_parameter((#[trigger] values[i]).op) ==> number_of(values[i].op)
            == parameter_total(values.take(i))
}

/// A value that is no root, and that other values use at most as a substituted
/// derivative, is not needed.
pub proof fn derivative_operands_are_not_needed(
    values: Seq<Value>,
    wires: Seq<Seq<usize>>,
    roots: Seq<usize>,
    at: int,
)
    requires
        !roots.contains(at as usize),
        forall|from: int, operand: int|
            at < from < wires.len() && 0 <= operand < #[trigger] wires[from].len()
                && #[trigger] wires[from][operand] == at ==> !forwards(values[from].op, operand),
    ensures
        !needed(values, wires, roots, at),
{
    assert forall|from: int, operand: int| at < from < wires.len() implies !#[trigger] uses(
        values,
        wires,
        from,
        operand,
        at,
    ) by {}
}

/// A program that keeps every parameter takes them by their registration
/// numbers, in order.
pub proof fn preserved_parameters_keep_their_numbers(
    values: Seq<Value>,
    wires: Seq<Seq<usize>>,
    roots: Seq<usize>,
    count: nat,
)
    requires
        count <= values.len(),
        in_order(values),
    ensures
        ({
            let kept = kept_positions(values, wires, roots, true, count);
            &&& kept.len() == parameter_total(values.take(count as int))
            &&& forall|k: int|
                0 <= k < kept.len() ==> #[trigger] numbers_at(values, kept)[k] == k
        }),
    decreases count,
{
    let kept = kept_positions(values, wires, roots, true, count);
    if count > 0 {
        let at = count - 1;
        preserved_parameters_keep_their_numbers(values, wires, roots, at as nat);
        let rest = kept_positions(values, wires, roots, true, at as nat);
        assert(values.take(count as int).drop_last() =~= values.take(at));
        assert forall|k: int| 0 <= k < kept.len() implies #[trigger] numbers_at(values, kept)[k]
            == k by {
            if k < rest.len() {
                assert(numbers_at(values, rest)[k] == k);
            } else {
                assert(values[at] == values[kept[k]]);
            }
        }
    }
}

/// The parameters that a program keeps are in the order of their registration.
pub proof fn kept_numbers_increase(
    values: Seq<Value>,
    wires: Seq<Seq<usize>>,
    roots: Seq<usize>,
    preserve_all: bool,
)
    requires
        in_order(values),
    ensures
        ({
            let numbers = numbers_at(
                values,
                kept_positions(values, wires, roots, preserve_all, values.len()),
            );
            &&& forall|i: int, j: int| 0 <= i < j < numbers.len() ==> numbers[i] < numbers[j]
            &&& forall|i: int|
                0 <= i < numbers.len() ==> #[trigger] numbers[i] < parameter_total(values)
        }),
{
    let kept = kept_positions(values, wires, roots, preserve_all, values.len());
    let numbers = numbers_at(values, kept);
    kept_positions_increase(values, wires, roots, preserve_all, values.len());
    assert forall|i: int| 0 <= i < numbers.len() implies #[trigger] numbers[i] < parameter_total(
        values,
    ) && numbers[i] == parameter_total(values.take(kept[i])) && is_parameter(
        values[kept[i]].op,
    ) by {
        kept_positions_are_the_needed_parameters(
            values,
            wires,
            roots,
            preserve_all,
            values.len(),
            kept[i],
        );
        assert(kept.contains(kept[i]));
        assert(is_parameter(values[kept[i]].op));
        lemma_parameter_total_grows(values, kept[i], values.len() as int);
        assert(values.take(values.len() as int) =~= values);
    }
    assert forall|i: int, j: int| 0 <= i < j < numbers.len() implies numbers[i] < numbers[j] by {
        assert(numbers[i] < parameter_total(values));
        assert(numbers[j] < parameter_total(values));
        lemma_parameter_total_grows(values, kept[i], kept[j]);
    }
}

/// The types at the given positions.
pub open spec fn types_at(values: Seq<Value>, positions: Seq<int>) -> Seq<TypeModel> {
    Seq::new(positions.len(), |k: int| type_of(values[positions[k]]))
}

/// The positions of a list of handles.
pub open spec fn ids_of(tensors: Seq<Tensor>) -> Seq<usize> {
    Seq::new(tensors.len(), |k: int| tensors[k].id())
}

/// Whether every value of the list belongs to a graph.
pub open spec fn all_local(graph: u64, values: Seq<Value>) -> bool {
    forall|k: int| 0 <= k < values.len() ==> (#[trigger] values[k]).graph == graph
}

/// Every parameter that contributes to an output is kept, and with
/// `preserve_all` every parameter; nothing else is.
pub proof fn kept_positions_are_the_needed_parameters(
    values: Seq<Value>,
    wires: Seq<Seq<usize>>,
    roots: Seq<usize>,
    preserve_all: bool,
    count: nat,
    at: int,
)
    requires
        count <= values.len(),
    ensures
        kept_positions(values, wires, roots, preserve_all, count).contains(at) <==> 0 <= at < count
            && is_parameter(values[at].op) && (preserve_all || needed(values, wires, roots, at)),
    decreases count,
{
    if count > 0 {
        kept_positions_are_the_needed_parameters(
            values,
            wires,
            roots,
            preserve_all,
            (count - 1) as nat,
            at,
        );
        let rest = kept_positions(values, wires, roots, preserve_all, (count - 1) as nat);
        let whole = kept_positions(values, wires, roots, preserve_all, count);
        if whole.len() > rest.len() {
            assert(whole == rest.push(count - 1));
            if rest.contains(at) {
                let k = choose|k: int| 0 <= k < rest.len() && rest[k] == at;
                assert(whole[k] == at);
            }
            if at == count - 1 {
                assert(whole[rest.len() as int] == at);
            }
            if whole.contains(at) {
                let k = choose|k: int| 0 <= k < whole.len() && whole[k] == at;
                if k < rest.len() {
                    assert(rest[k] == at);
                }
            }
        }
    }
}

/// Kept parameters stay in registration order.
pub proof fn kept_positions_increase(
    values: Seq<Value>,
    wires: Seq<Seq<usize>>,
    roots: Seq<usize>,
    preserve_all: bool,
    count: nat,
)
    requires
        count <= values.len(),
    ensures
        ({
            let kept = kept_positions(values, wires, roots, preserve_all, count);
            &&& forall|i: int, j: int| 0 <= i < j < kept.len() ==> kept[i] < kept[j]
            &&& forall|i: int| 0 <= i < kept.len() ==> 0 <= #[trigger] kept[i] < count
        }),
    decreases count,
{
    if count > 0 {
        kept_positions_increase(values, wires, roots, preserve_all, (count - 1) as nat);
        let rest = kept_positions(values, wires, roots, preserve_all, (count - 1) as nat);
        let kept = kept_positions(values, wires, roots, preserve_all, count);
        assert forall|i: int| 0 <= i < kept.len() implies 0 <= #[trigger] kept[i] < count by {
            if i < rest.len() {
                assert(kept[i] == rest[i]);
            }
        }
        assert forall|i: int, j: int| 0 <= i < j < kept.len() implies kept[i] < kept[j] by {
            assert(kept[i] == rest[i]);
            if j < rest.len() {
                assert(kept[j] == rest[j]);
            }
        }
    }
}

impl Graph {
    /// Which values contribute to the roots.
    pub(crate) fn contributing(&self, roots: &Vec<usize>) -> (r: Vec<bool>)
        requires
            self.wf(),
        ensures
            r@.len() == self.model().len(),
            forall|k: int|
                0 <= k < r@.len() ==> #[trigger] r@[k] == needed(self.model(), self.wires(), roots@, k),
    {
        let ghost values = self.model();
        let ghost wires = self.wires();
        let count: usize = self.len();
        proof {
            self.lemma_lengths();
        }
        let mut live: Vec<bool> = Vec::new();
        let mut i: usize = 0;
        while i < count
            invariant
                i <= count,
                live@.len() == i,
                forall|m: int| 0 <= m < i ==> #[trigger] live@[m] == roots@.contains(m as usize),
            decreases count - i,
        {
            live.push(crate::shape::contains_axis(roots.as_slice(), i));
            i += 1;
        }
        let mut at: usize = count;
        while at > 0
            invariant
                self.wf(),
                values == self.model(),
                wires == self.wires(),
                wires.len() == values.len(),
                at <= count == wires.len(),
                live@.len() == count,
                forall|m: int|
                    0 <= m < count ==> #[trigger] live@[m] == (roots@.contains(m as usize)
                        || exists|from: int, operand: int|
                        at <= from < count && #[trigger] uses(values, wires, from, operand, m) && needed(
                            values,
                            wires,
                            roots@,
                            from,
                        )),
            decreases at,
        {
            at = at - 1;
            let ghost before = live@;
            let node: &Node = self.node_at(at);
            proof {
                assert(before[at as int] == needed(values, wires, roots@, at as int)) by {
                    if needed(values, wires, roots@, at as int) && !roots@.contains(at as usize) {
                        let (from, operand) = choose|from: int, operand: int|
                            at < from < count && #[trigger] uses(values, wires, from, operand, at as int)
                                && needed(values, wires, roots@, from);
                        assert(uses(values, wires, from, operand, at as int));
                    }
                }
            }
            if live[at] {
                let mut k: usize = 0;
                while k < node.operands.len()
                    invariant
                        node.operands@ == wires[at as int],
                        node.op@ == values[at as int].op,
                        forall|j: int|
                            0 <= j < node.operands@.len() ==> #[trigger] node.operands@[j] < at,
                        at < count == live@.len() == before.len(),
                        k <= node.operands@.len(),
                        forall|m: int|
                            0 <= m < count ==> #[trigger] live@[m] == (before[m] || exists|j: int|
                                0 <= j < k && #[trigger] uses(values, wires, at as int, j, m)),
                    decreases node.operands@.len() - k,
                {
                    let ghost earlier = live@;
                    let target: usize = node.operands[k];
                    if is_forward(&node.op, k) {
                        live.set(target, true);
                        assert(uses(values, wires, at as int, k as int, target as int));
                    }
                    proof {
                        assert forall|m: int| 0 <= m < count implies #[trigger] live@[m] == (
                        before[m] || exists|j: int|
                            0 <= j < k + 1 && #[trigger] uses(values, wires, at as int, j, m)) by {
                            assert(earlier[m] == (before[m] || exists|j: int|
                                0 <= j < k && #[trigger] uses(values, wires, at as int, j, m)));
                        }
                    }
                    k += 1;
                }
            }
            proof {
                assert forall|m: int| 0 <= m < count implies #[trigger] live@[m] == (
                roots@.contains(m as usize) || exists|from: int, operand: int|
                    at <= from < count && #[trigger] uses(values, wires, from, operand, m) && needed(
                        values,
                        wires,
                        roots@,
                        from,
                    )) by {
                    assert(before[m] == (roots@.contains(m as usize) || exists|
                        from: int,
                        operand: int,
                    |
                        at + 1 <= from < count && #[trigger] uses(values, wires, from, operand, m)
                            && needed(values, wires, roots@, from)));
                    if exists|from: int, operand: int|
                        at <= from < count && #[trigger] uses(values, wires, from, operand, m) && needed(
                            values,
                            wires,
                            roots@,
                            from,
                        ) {
                        let (from, operand) = choose|from: int, operand: int|
                            at <= from < count && #[trigger] uses(values, wires, from, operand, m)
                                && needed(values, wires, roots@, from);
                        if from == at {
                            assert(uses(values, wires, at as int, operand, m));
                        }
                    }
                }
            }
        }
        proof {
            assert forall|m: int| 0 <= m < live@.len() implies #[trigger] live@[m] == needed(
                values,
                wires,
                roots@,
                m,
            ) by {
                if exists|from: int, operand: int|
                    0 <= from < count && #[trigger] uses(values, wires, from, operand, m) && needed(
                        values,
                        wires,
                        roots@,
                        from,
                    ) {
                    let (from, operand) = choose|from: int, operand: int|
                        0 <= from < count && #[trigger] uses(values, wires, from, operand, m) && needed(
                            values,
                            wires,
                            roots@,
                            from,
                        );
                    self.lemma_position(from);
                    assert(wires[from][operand] < from);
                    assert(m < from);
                }
            }
        }
        live
    }

    /// The parameters and types of a program with the given outputs. Without
    /// `preserve_all`, parameters that no output needs are left out.
    pub fn interface(&self, outputs: &[Tensor], preserve_all: bool) -> (r: Result<
        Interface,
        Error,
    >)
        requires
            self.wf(),
            self.admits_all(outputs@),
        ensures
            match r {
                Ok(interface) => {
                    let kept = kept_positions(
                        self.model(),
                        self.wires(),
                        ids_of(outputs@),
                        preserve_all,
                        self.model().len(),
                    );
                    &&& all_local(self.key(), values_of(outputs@))
                    &&& interface.parameters@ == numbers_at(self.model(), kept)
                    &&& types_view(interface.inputs@) == types_at(self.model(), kept)
                    &&& types_view(interface.outputs@) == Seq::new(
                        outputs@.len(),
                        |k: int| type_of(outputs@[k]@),
                    )
                },
                Err(e) => !all_local(self.key(), values_of(outputs@)) && e == invalid(
                    "output belongs to another graph",
                ),
            },
    {
        let mut roots: Vec<usize> = Vec::new();
        let mut types: Vec<TensorType> = Vec::new();
        let mut i: usize = 0;
        while i < outputs.len()
            invariant
                self.wf(),
                self.admits_all(outputs@),
                i <= outputs@.len(),
                roots@.len() == i,
                types@.len() == i,
                forall|k: int| 0 <= k < i ==> #[trigger] roots@[k] == outputs@[k].id(),
                forall|k: int| 0 <= k < i ==> (#[trigger] types@[k])@ == type_of(outputs@[k]@),
                forall|k: int|
                    0 <= k < i ==> (#[trigger] values_of(outputs@)[k]).graph == self.key(),
            decreases outputs@.len() - i,
        {
            assert(self.admits(outputs@[i as int]));
            assert(values_of(outputs@)[i as int] == outputs@[i as int]@);
            if outputs[i].graph_id() != self.id() {
                return Err(err("output belongs to another graph"));
            }
            roots.push(outputs[i].node_id());
            types.push(outputs[i].ty());
            i += 1;
        }
        assert(roots@ =~= ids_of(outputs@));
        let live: Vec<bool> = self.contributing(&roots);
        let mut parameters: Vec<usize> = Vec::new();
        let mut inputs: Vec<TensorType> = Vec::new();
        let count: usize = self.len();
        let mut at: usize = 0;
        while at < count
            invariant
                self.wf(),
                roots@ == ids_of(outputs@),
                count == self.model().len(),
                live@.len() == count,
                forall|k: int|
                    0 <= k < count ==> #[trigger] live@[k] == needed(self.model(), self.wires(), roots@, k),
                at <= count,
                ({
                    let kept = kept_positions(
                        self.model(),
                        self.wires(),
                        roots@,
                        preserve_all,
                        at as nat,
                    );
                    &&& parameters@ == numbers_at(self.model(), kept)
                    &&& types_view(inputs@) == types_at(self.model(), kept)
                }),
            decreases count - at,
        {
            let node: &Node = self.node_at(at);
            let ghost kept = kept_positions(
                self.model(),
                self.wires(),
                roots@,
                preserve_all,
                at as nat,
            );
            let ghost next = kept_positions(
                self.model(),
                self.wires(),
                roots@,
                preserve_all,
                (at + 1) as nat,
            );
            let ghost earlier = inputs@;
            let ghost earlier_parameters = parameters@;
            let number: Option<usize> = match &node.op {
                Op::Parameter(number) => Some(*number),
                Op::StateInput { number, .. } => Some(*number),
                _ => None,
            };
            if let Some(number) = number {
                if preserve_all || live[at] {
                    parameters.push(number);
                    inputs.push(node.ty.duplicate());
                    proof {
                        assert(next == kept.push(at as int));
                        assert(parameters@ =~= numbers_at(self.model(), next)) by {
                            assert(earlier_parameters == numbers_at(self.model(), kept));
                        }
                        assert(types_view(earlier) == types_at(self.model(), kept));
                        assert(types_view(earlier).len() == earlier.len());
                        assert(types_at(self.model(), kept).len() == kept.len());
                        assert(inputs@.len() == next.len());
                        assert(types_view(inputs@) =~= types_at(self.model(), next)) by {
                            assert forall|k: int| 0 <= k < next.len() implies types_view(inputs@)[k]
                                == types_at(self.model(), next)[k] by {
                                if k < kept.len() {
                                    assert(types_view(earlier)[k] == types_at(
                                        self.model(),
                                        kept,
                                    )[k]);
                                }
                            }
                        }
                    }
                }
            }
            at += 1;
        }
        assert(types_view(types@) =~= Seq::new(outputs@.len(), |k: int| type_of(outputs@[k]@)));
        Ok(Interface { parameters, inputs, outputs: types })
    }
}

} // verus!
