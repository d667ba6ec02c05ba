//! Reverse-mode differentiation: gradients recorded in the same graph.
use crate::dtype::DType;
use crate::error::{err, invalid, Error};
use crate::gradients::{
    all_fit, consistent, contributions, contributions_have_operand_extents, differentiable,
    fits_operand, follows, granted, refused, rule, Parts,
};
use crate::graph::{picked, scalar, values_of, Expr, Graph, Node, Tensor, Value};
use crate::indexing::{collect, lemma_collect_err, lemma_collect_ok};
use crate::op::{op_name, operation_name, Op, Scalar, Unary, F32_ONE, F32_ZERO};
use crate::shape::{same_dims, volume};
use vstd::prelude::*;

verus! {

/// Whether gradients pass from one value to an operand at a position.
pub open spec fn passes(
    values: Seq<Value>,
    wires: Seq<Seq<usize>>,
    from: int,
    operand: int,
    to: int,
) -> bool {
    0 <= operand < wires[from].len() && follows(values[from].op, operand) && wires[from][operand]
        == to
}

/// Whether gradients of the value at `root` reach a position.
pub open spec fn on_path(
    values: Seq<Value>,
    wires: Seq<Seq<usize>>,
    root: int,
    at: int,
) -> bool
    decreases root - at,
{
    at == root || (at < root && exists|from: int, operand: int|
        at < from <= root && #[trigger] passes(values, wires, from, operand, at) && on_path(
            values,
            wires,
            root,
            from,
        ))
}

/// Whether a position holds the last operation without a derivative rule that
/// gradients reach.
pub open spec fn obstacle(values: Seq<Value>, wires: Seq<Seq<usize>>, root: int, at: int) -> bool {
    &&& 0 <= at <= root
    &&& on_path(values, wires, root, at)
    &&& !differentiable(values[at].op)
    &&& forall|later: int|
        at < later <= root && #[trigger] on_path(values, wires, root, later) ==> differentiable(
            values[later].op,
        )
}

/// The refusal of an operation without a derivative rule.
pub open spec fn path_refusal(values: Seq<Value>, wires: Seq<Seq<usize>>, root: int) -> Option<
    Error,
> {
    if exists|at: int| #[trigger] obstacle(values, wires, root, at) {
        let at = choose|at: int| #[trigger] obstacle(values, wires, root, at);
        Some(
            Error::UnsupportedGradient {
                node: (at + 1) as usize,
                operation: op_name(values[at].op),
            },
        )
    } else {
        None
    }
}

/// Why a value cannot be differentiated against.
pub open spec fn leaf_refusal(graph: u64, input: Value) -> Option<Error> {
    if input.graph != graph {
        Some(invalid("cross-graph gradient input"))
    } else if !(input.op is Parameter || input.op is StateRead) {
        Some(invalid("grad inputs must be graph input/parameter leaves"))
    } else {
        None
    }
}

/// The first refusal among the first `count` inputs.
pub open spec fn leaves_refusal(graph: u64, inputs: Seq<Value>, count: nat) -> Option<Error>
    decreases count,
{
    if count == 0 {
        None
    } else {
        match leaves_refusal(graph, inputs, (count - 1) as nat) {
            Some(e) => Some(e),
            None => leaf_refusal(graph, inputs[count - 1]),
        }
    }
}

/// Whether all values are F32.
pub open spec fn all_f32(values: Seq<Value>) -> bool {
    forall|k: int| 0 <= k < values.len() ==> (#[trigger] values[k]).dtype == DType::F32
}

/// Why gradients are refused before anything is recorded.
pub open spec fn grad_refusal(
    graph: Graph,
    loss: Tensor,
    inputs: Seq<Value>,
    cotangent: Option<Value>,
) -> Option<Error> {
    if loss@.dtype != DType::F32 || !all_f32(inputs) || (cotangent matches Some(c) && c.dtype
        != DType::F32) {
        Some(invalid("autodiff requires F32 outputs, inputs and cotangents"))
    } else {
        match leaves_refusal(loss@.graph, inputs, inputs.len()) {
            Some(e) => Some(e),
            None => path_refusal(graph.model(), graph.wires(), loss.id() as int),
        }
    }
}

/// The gradients known so far, by position.
pub type Known = Seq<Option<Value>>;

/// The gradients with the first `count` contributions added, in order.
pub open spec fn added(known: Known, wires: Seq<usize>, parts: Parts, count: nat) -> Result<
    Known,
    Error,
>
    decreases count,
{
    if count == 0 {
        Ok(known)
    } else {
        match added(known, wires, parts, (count - 1) as nat) {
            Err(e) => Err(e),
            Ok(before) => {
                let at = wires[parts[count - 1].0 as int] as int;
                let sum = match before[at] {
                    None => parts[count - 1].1,
                    Some(previous) => Expr::Is(previous).add(parts[count - 1].1),
                };
                match sum {
                    Expr::Fails(e) => Err(e),
                    Expr::Is(v) => Ok(before.update(at, Some(v))),
                }
            },
        }
    }
}

/// The expressions of a list of contributions.
pub open spec fn exprs_of(parts: Parts) -> Seq<Expr> {
    Seq::new(parts.len(), |k: int| parts[k].1)
}

/// The gradients after one position has contributed to its operands.
pub open spec fn stepped(known: Known, wires: Seq<usize>, parts: Parts) -> Result<Known, Error> {
    match collect(exprs_of(parts)) {
        Err(e) => Err(e),
        Ok(_) => added(known, wires, parts, parts.len()),
    }
}

/// The gradients after the positions below `count` have contributed, from the
/// last to the first.
pub open spec fn swept(
    values: Seq<Value>,
    wires: Seq<Seq<usize>>,
    known: Known,
    count: nat,
) -> Result<Known, Error>
    decreases count,
{
    if count == 0 {
        Ok(known)
    } else {
        match known[count - 1] {
            None => swept(values, wires, known, (count - 1) as nat),
            Some(dy) => match stepped(known, wires[count - 1], rule(values[count - 1], dy)) {
                Err(e) => Err(e),
                Ok(next) => swept(values, wires, next, (count - 1) as nat),
            },
        }
    }
}

/// Only the gradient of the root is known.
pub open spec fn seeded(count: nat, root: int, seed: Value) -> Known {
    Seq::new(count, |k: int| if k == root { Some(seed) } else { None })
}

/// The requested gradients; zeros where none arrived.
pub open spec fn requested(graph: u64, known: Known, inputs: Seq<Tensor>) -> Seq<Expr> {
    Seq::new(
        inputs.len(),
        |k: int|
            match known[inputs[k].id() as int] {
                Some(v) => Expr::Is(v),
                None => scalar(graph, Scalar::Bits(F32_ZERO)).broadcast_to(inputs[k]@.dims),
            },
    )
}

/// The gradients of a value with respect to inputs, from a cotangent.
pub open spec fn gradients_of(
    graph: Graph,
    loss: Tensor,
    inputs: Seq<Tensor>,
    seed: Expr,
) -> Result<Seq<Value>, Error> {
    match seed {
        Expr::Fails(e) => Err(e),
        Expr::Is(s) => match swept(
            graph.model(),
            graph.wires(),
            seeded(graph.model().len(), loss.id() as int, s),
            graph.model().len(),
        ) {
            Err(e) => Err(e),
            Ok(known) => collect(requested(graph.key(), known, inputs)),
        },
    }
}

/// The gradients of a value, or why they are refused.
pub open spec fn reverse_gradients(
    graph: Graph,
    loss: Tensor,
    inputs: Seq<Tensor>,
    cotangent: Option<Value>,
) -> Result<Seq<Value>, Error> {
    match grad_refusal(graph, loss, values_of(inputs), cotangent) {
        Some(e) => Err(e),
        None => gradients_of(
            graph,
            loss,
            inputs,
            match cotangent {
                Some(c) => Expr::Is(c),
                None => scalar(graph.key(), Scalar::Bits(F32_ONE)),
            },
        ),
    }
}

/// Whether an operation has a derivative rule.
fn has_rule(op: &Op) -> (r: bool)
    ensures
        r == differentiable(op@),
{
    match op {
        Op::ConstantI32(_)
        | Op::Iota { .. }
        | Op::IntegerBinary(_)
        | Op::CompareMask(_)
        | Op::IndexLessEqualMask
        | Op::IsFiniteMask
        | Op::ArgMax { .. }
        | Op::SortedIndices { .. }
        | Op::MaxPool2d(_)
        | Op::GetDimensionSize { .. }
        | Op::If
        | Op::MultiResult
        | Op::CustomCall { .. } => false,
        _ => true,
    }
}

/// Whether gradients pass from an operation to an operand.
fn passes_to(op: &Op, operand: usize) -> (r: bool)
    ensures
        r == follows(op@, operand as int),
{
    match op {
        Op::StopGradient | Op::IndexToFloat | Op::Bf16ToFloat => false,
        Op::Unary(unary) => !(*unary == Unary::Floor || *unary == Unary::Ceil || *unary
            == Unary::Round || *unary == Unary::RoundTiesEven),
        Op::WithGradient => operand == 1,
        Op::WithElementwiseDerivative => operand % 2 == 1,
        Op::Select => operand >= 1,
        Op::Take { .. }
        | Op::TakeAlongAxis { .. }
        | Op::GatherGradient { .. }
        | Op::DynamicSlice => operand == 0,
        Op::DynamicUpdateSlice => operand < 2,
        _ => true,
    }
}

/// Whether a position is the root, or reached from a position not below
/// `bound`.
pub open spec fn reached(
    values: Seq<Value>,
    wires: Seq<Seq<usize>>,
    root: int,
    bound: int,
    at: int,
) -> bool {
    at == root || exists|from: int, operand: int|
        bound <= from <= root && #[trigger] passes(values, wires, from, operand, at) && on_path(
            values,
            wires,
            root,
            from,
        )
}

impl Graph {
    /// Mark the operands of one position that gradients pass to.
    fn mark(&self, live: &mut Vec<bool>, at: usize, root: usize)
        requires
            self.wf(),
            at <= root < self.model().len(),
            old(live)@.len() == self.model().len(),
            on_path(self.model(), self.wires(), root as int, at as int),
            forall|m: int|
                0 <= m < old(live)@.len() ==> #[trigger] old(live)@[m] == reached(
                    self.model(),
                    self.wires(),
                    root as int,
                    at + 1,
                    m,
                ),
        ensures
            final(live)@.len() == self.model().len(),
            forall|m: int|
                0 <= m < final(live)@.len() ==> #[trigger] final(live)@[m] == reached(
                    self.model(),
                    self.wires(),
                    root as int,
                    at as int,
                    m,
                ),
    {
        let ghost values = self.model();
        let ghost wires = self.wires();
        let ghost before = live@;
        let node: &Node = self.node_at(at);
        let mut k: usize = 0;
        while k < node.operands.len()
            invariant
                self.wf(),
                values == self.model(),
                wires == self.wires(),
                at <= root < values.len(),
                node.operands@ == wires[at as int],
                node.op@ == values[at as int].op,
                forall|j: int|
                    0 <= j < node.operands@.len() ==> #[trigger] node.operands@[j] < at,
                live@.len() == values.len(),
                before.len() == values.len(),
                k <= node.operands@.len(),
                forall|m: int|
                    0 <= m < live@.len() ==> (#[trigger] live@[m] == (before[m] || exists|j: int|
                        0 <= j < k && #[trigger] passes(values, wires, at as int, j, m))),
            decreases node.operands@.len() - k,
        {
            let ghost earlier = live@;
            if passes_to(&node.op, k) {
                let target: usize = node.operands[k];
                live.set(target, true);
                assert(passes(values, wires, at as int, k as int, target as int));
            }
            assert forall|m: int| 0 <= m < live@.len() implies (#[trigger] live@[m] == (before[m]
                || exists|j: int|
                0 <= j < k + 1 && #[trigger] passes(values, wires, at as int, j, m))) by {
                assert(earlier[m] == (before[m] || exists|j: int|
                    0 <= j < k && #[trigger] passes(values, wires, at as int, j, m)));
                if exists|j: int|
                    0 <= j < k + 1 && #[trigger] passes(values, wires, at as int, j, m) {
                    let j = choose|j: int|
                        0 <= j < k + 1 && #[trigger] passes(values, wires, at as int, j, m);
                    if j < k {
                        assert(earlier[m]);
                    }
                }
            }
            k += 1;
        }
        proof {
            assert forall|m: int| 0 <= m < live@.len() implies #[trigger] live@[m] == reached(
                values,
                wires,
                root as int,
                at as int,
                m,
            ) by {
                assert(before[m] == reached(values, wires, root as int, at + 1, m));
                if reached(values, wires, root as int, at as int, m) && m != root {
                    let (from, operand) = choose|from: int, operand: int|
                        at <= from <= root && #[trigger] passes(values, wires, from, operand, m)
                            && on_path(values, wires, root as int, from);
                    if from > at {
                        assert(reached(values, wires, root as int, at + 1, m));
                    } else {
                        assert(passes(values, wires, at as int, operand, m));
                        assert(0 <= operand < k);
                    }
                }
            }
        }
    }

    /// The refusal of an operation without a derivative rule on the path of
    /// gradients.
    fn check_path(&self, root: usize) -> (r: Result<(), Error>)
        requires
            self.wf(),
            root < self.model().len(),
        ensures
            match r {
                Ok(_) => path_refusal(self.model(), self.wires(), root as int) is None && forall|
                    at: int,
                |
                    0 <= at <= root && #[trigger] on_path(
                        self.model(),
                        self.wires(),
                        root as int,
                        at,
                    ) ==> differentiable(self.model()[at].op),
                Err(e) => path_refusal(self.model(), self.wires(), root as int) == Some(e),
            },
    {
        let ghost values = self.model();
        let ghost wires = self.wires();
        let count: usize = self.len();
        let mut live: Vec<bool> = Vec::new();
        let mut i: usize = 0;
        while i < count
            invariant
                i <= count,
                live@.len() == i,
                forall|m: int| 0 <= m < i ==> #[trigger] live@[m] == (m == root),
            decreases count - i,
        {
            live.push(i == root);
            i += 1;
        }
        assert forall|m: int| 0 <= m < live@.len() implies #[trigger] live@[m] == reached(
            values,
            wires,
            root as int,
            root + 1,
            m,
        ) by {}
        let mut at: usize = root + 1;
        while at > 0
            invariant
                self.wf(),
                values == self.model(),
                wires == self.wires(),
                root < values.len(),
                at <= root + 1,
                live@.len() == values.len(),
                forall|m: int|
                    0 <= m < live@.len() ==> #[trigger] live@[m] == reached(
                        values,
                        wires,
                        root as int,
                        at as int,
                        m,
                    ),
                forall|later: int|
                    at <= later <= root && #[trigger] on_path(values, wires, root as int, later)
                        ==> differentiable(values[later].op),
            decreases at,
        {
            at = at - 1;
            let node: &Node = self.node_at(at);
            proof {
                assert(live@[at as int] == on_path(values, wires, root as int, at as int)) by {
                    assert(live@[at as int] == reached(
                        values,
                        wires,
                        root as int,
                        at + 1,
                        at as int,
                    ));
                }
            }
            if live[at] {
                if !has_rule(&node.op) {
                    proof {
                        assert(obstacle(values, wires, root as int, at as int));
                        let found = choose|k: int| #[trigger] obstacle(values, wires, root as int, k);
                        assert(obstacle(values, wires, root as int, found));
                        if found < at {
                            assert(on_path(values, wires, root as int, at as int));
                        }
                        if at < found {
                            assert(on_path(values, wires, root as int, found));
                        }
                    }
                    return Err(
                        Error::UnsupportedGradient {
                            node: at + 1,
                            operation: operation_name(&node.op),
                        },
                    );
                }
                self.mark(&mut live, at, root);
            } else {
                proof {
                    assert forall|m: int| 0 <= m < live@.len() implies #[trigger] live@[m]
                        == reached(values, wires, root as int, at as int, m) by {
                        if reached(values, wires, root as int, at as int, m) && m != root {
                            let (from, operand) = choose|from: int, operand: int|
                                at <= from <= root && #[trigger] passes(
                                    values,
                                    wires,
                                    from,
                                    operand,
                                    m,
                                ) && on_path(values, wires, root as int, from);
                            assert(from != at);
                            assert(reached(values, wires, root as int, at + 1, m));
                        }
                    }
                }
            }
        }
        Ok(())
    }

    /// Handles to the operands of one position.
    fn operands_at(&self, at: usize) -> (r: Vec<Tensor>)
        requires
            self.wf(),
            at < self.model().len(),
        ensures
            self.owns_all(r@),
            values_of(r@) == self.model()[at as int].args,
    {
        let node: &Node = self.node_at(at);
        let mut args: Vec<Tensor> = Vec::new();
        let mut k: usize = 0;
        while k < node.operands.len()
            invariant
                self.wf(),
                at < self.model().len(),
                forall|j: int|
                    0 <= j < node.operands@.len() ==> #[trigger] node.operands@[j] < at,
                k <= node.operands@.len(),
                args@.len() == k,
                self.owns_all(args@),
                forall|j: int|
                    0 <= j < k ==> (#[trigger] args@[j])@ == self.model()[node.operands@[j] as int],
            decreases node.operands@.len() - k,
        {
            args.push(self.tensor_at(node.operands[k]));
            k += 1;
        }
        assert(values_of(args@) =~= picked(self.model(), node.operands@));
        args
    }
}

/// Operands precede what they are operands of, and every value fits its
/// operands.
pub open spec fn well_wired(values: Seq<Value>, wires: Seq<Seq<usize>>, graph: u64) -> bool {
    &&& wires.len() == values.len()
    &&& forall|i: int|
        0 <= i < values.len() ==> {
            &&& (#[trigger] values[i]).graph == graph
            &&& consistent(values[i])
            &&& wires[i].len() == values[i].args.len()
            &&& forall|k: int|
                0 <= k < wires[i].len() ==> #[trigger] wires[i][k] < i && values[wires[i][k] as int]
                    == values[i].args[k]
        }
}

/// A graph is wired in order.
pub proof fn lemma_well_wired(graph: Graph)
    requires
        graph.wf(),
    ensures
        well_wired(graph.model(), graph.wires(), graph.key()),
{
    let values = graph.model();
    let wires = graph.wires();
    if values.len() > 0 {
        graph.lemma_position(0);
    } else {
        graph.lemma_lengths();
    }
    assert forall|i: int| 0 <= i < values.len() implies {
        &&& (#[trigger] values[i]).graph == graph.key()
        &&& consistent(values[i])
        &&& wires[i].len() == values[i].args.len()
        &&& forall|k: int|
            0 <= k < wires[i].len() ==> #[trigger] wires[i][k] < i && values[wires[i][k] as int]
                == values[i].args[k]
    } by {
        graph.lemma_position(i);
        assert forall|k: int| 0 <= k < values[i].args.len() implies (
        #[trigger] values[i].args[k]).graph == values[i].graph && volume(values[i].args[k].dims)
            is Some && values[i].args[k].dims.len() <= usize::MAX by {
            assert(values[i].args[k] == values[wires[i][k] as int]);
            graph.lemma_position(wires[i][k] as int);
        }
    }
}

/// Gradients are known only on the path from the root, and have the extents of
/// the values that they belong to.
pub open spec fn shaped(
    known: Known,
    values: Seq<Value>,
    wires: Seq<Seq<usize>>,
    graph: u64,
    root: int,
) -> bool {
    &&& known.len() == values.len()
    &&& forall|k: int|
        0 <= k < known.len() && (#[trigger] known[k]) is Some ==> known[k]->0.dims == values[k].dims
            && known[k]->0.graph == graph && k <= root && on_path(values, wires, root, k)
}

/// Adding contributions that fit keeps gradients on the path and in shape.
proof fn lemma_added_shaped(
    known: Known,
    values: Seq<Value>,
    wires: Seq<Seq<usize>>,
    graph: u64,
    root: int,
    at: int,
    parts: Parts,
    count: nat,
)
    requires
        well_wired(values, wires, graph),
        shaped(known, values, wires, graph, root),
        0 <= at <= root < values.len(),
        on_path(values, wires, root, at),
        all_fit(values[at], parts),
        count <= parts.len(),
    ensures
        added(known, wires[at], parts, count) matches Ok(next) ==> shaped(
            next,
            values,
            wires,
            graph,
            root,
        ),
    decreases count,
{
    if count > 0 {
        lemma_added_shaped(
            known,
            values,
            wires,
            graph,
            root,
            at,
            parts,
            (count - 1) as nat,
        );
        let part = parts[count - 1];
        assert(fits_operand(values[at], part));
        assert(values[at].graph == graph);
        let to = wires[at][part.0 as int] as int;
        assert(values[to] == values[at].args[part.0 as int]);
        assert(passes(values, wires, at, part.0 as int, to));
        assert(on_path(values, wires, root, to));
        if let Ok(before) = added(known, wires[at], parts, (count - 1) as nat) {
            if let Some(previous) = before[to] {
                crate::facts::binary_keeps(
                    Expr::Is(previous),
                    part.1,
                    crate::op::Binary::Add,
                );
            }
        }
    }
}

/// One position's contributions keep gradients on the path and in shape.
pub(crate) proof fn lemma_stepped_shaped(
    known: Known,
    values: Seq<Value>,
    wires: Seq<Seq<usize>>,
    graph: u64,
    root: int,
    at: int,
)
    requires
        well_wired(values, wires, graph),
        shaped(known, values, wires, graph, root),
        0 <= at < values.len(),
        root < values.len(),
        known[at] is Some,
    ensures
        stepped(known, wires[at], rule(values[at], known[at]->0)) matches Ok(next) ==> shaped(
            next,
            values,
            wires,
            graph,
            root,
        ),
{
    let dy = known[at]->0;
    assert(values[at].graph == graph);
    contributions_have_operand_extents(values[at], dy);
    lemma_added_shaped(
        known,
        values,
        wires,
        graph,
        root,
        at,
        rule(values[at], dy),
        rule(values[at], dy).len(),
    );
}

/// A sweep keeps gradients on the path and in shape.
pub(crate) proof fn lemma_swept_shaped(
    known: Known,
    values: Seq<Value>,
    wires: Seq<Seq<usize>>,
    graph: u64,
    root: int,
    count: nat,
)
    requires
        well_wired(values, wires, graph),
        shaped(known, values, wires, graph, root),
        count <= values.len(),
        root < values.len(),
    ensures
        swept(values, wires, known, count) matches Ok(last) ==> shaped(
            last,
            values,
            wires,
            graph,
            root,
        ),
    decreases count,
{
    if count > 0 {
        match known[count - 1] {
            None => {
                lemma_swept_shaped(known, values, wires, graph, root, (count - 1) as nat);
            },
            Some(dy) => {
                lemma_stepped_shaped(known, values, wires, graph, root, count - 1);
                if let Ok(next) = stepped(known, wires[count - 1], rule(values[count - 1], dy)) {
                    lemma_swept_shaped(next, values, wires, graph, root, (count - 1) as nat);
                }
            },
        }
    }
}

/// What fails while contributions are added fails the whole addition.
proof fn lemma_added_failed(
    known: Known,
    wires: Seq<usize>,
    parts: Parts,
    early: nat,
    count: nat,
    error: Error,
)
    requires
        early <= count,
        added(known, wires, parts, early) == Err::<Known, Error>(error),
    ensures
        added(known, wires, parts, count) == Err::<Known, Error>(error),
    decreases count - early,
{
    if early < count {
        assert(added(known, wires, parts, early + 1) == Err::<Known, Error>(error));
        lemma_added_failed(known, wires, parts, early + 1, count, error);
    }
}

/// The values of optional handles.
pub open spec fn views(list: Seq<Option<Tensor>>) -> Known {
    Seq::new(
        list.len(),
        |k: int|
            match list[k] {
                Some(t) => Some(t@),
                None => None,
            },
    )
}

/// Every handle in the list is to a value of the graph.
pub open spec fn all_owned(graph: Graph, list: Seq<Option<Tensor>>) -> bool {
    forall|k: int| 0 <= k < list.len() && (#[trigger] list[k]) is Some ==> graph.owns(list[k]->0)
}

/// Add contributions to the gradients of operands.
fn accumulate(
    graph: &mut Graph,
    known: &mut Vec<Option<Tensor>>,
    wires: &Vec<usize>,
    list: &Vec<(usize, Tensor)>,
    Ghost(parts): Ghost<Parts>,
) -> (r: Result<(), Error>)
    requires
        old(graph).wf(),
        all_owned(*old(graph), old(known)@),
        granted(*old(graph), list@, parts),
        forall|k: int| 0 <= k < list@.len() ==> (#[trigger] list@[k]).0 < wires@.len(),
        forall|k: int| 0 <= k < wires@.len() ==> #[trigger] wires@[k] < old(known)@.len(),
    ensures
        final(graph).extends(*old(graph)),
        final(known)@.len() == old(known)@.len(),
        all_owned(*final(graph), final(known)@),
        match r {
            Ok(_) => added(views(old(known)@), wires@, parts, parts.len()) == Ok::<Known, Error>(
                views(final(known)@),
            ),
            Err(e) => added(views(old(known)@), wires@, parts, parts.len()) == Err::<Known, Error>(
                e,
            ),
        },
{
    let ghost start = views(known@);
    proof {
        reveal(granted);
    }
    let mut k: usize = 0;
    while k < list.len()
        invariant
            graph.extends(*old(graph)),
            start == views(old(known)@),
            known@.len() == old(known)@.len(),
            all_owned(*graph, known@),
            list@.len() == parts.len(),
            forall|j: int|
                0 <= j < list@.len() ==> old(graph).owns((#[trigger] list@[j]).1) && parts[j].0
                    == list@[j].0 && parts[j].1 == Expr::Is(list@[j].1@),
            forall|j: int| 0 <= j < list@.len() ==> (#[trigger] list@[j]).0 < wires@.len(),
            forall|j: int| 0 <= j < wires@.len() ==> #[trigger] wires@[j] < known@.len(),
            k <= list@.len(),
            added(start, wires@, parts, k as nat) == Ok::<Known, Error>(views(known@)),
        decreases list@.len() - k,
    {
        let ghost before = *graph;
        let ghost earlier = known@;
        let at: usize = wires[list[k].0];
        assert(graph.owns(list@[k as int].1));
        let sum: Tensor = match &known[at] {
            Some(previous) => match previous.add(graph, &list[k].1) {
                Ok(sum) => sum,
                Err(e) => {
                    proof {
                        assert(added(start, wires@, parts, (k + 1) as nat) == Err::<Known, Error>(
                            e,
                        ));
                        lemma_added_failed(
                            start,
                            wires@,
                            parts,
                            (k + 1) as nat,
                            parts.len(),
                            e,
                        );
                        assert(all_owned(*graph, known@)) by {
                            assert forall|j: int|
                                0 <= j < known@.len() && (#[trigger] known@[j]) is Some implies
                                graph.owns(known@[j]->0) by {
                                assert(before.owns(known@[j]->0));
                            }
                        }
                    }
                    return Err(e);
                },
            },
            None => list[k].1.copy(),
        };
        known.set(at, Some(sum));
        proof {
            assert(views(known@) =~= views(earlier).update(at as int, Some(sum@)));
            assert forall|j: int| 0 <= j < known@.len() && (#[trigger] known@[j]) is Some implies
                graph.owns(known@[j]->0) by {
                if j != at {
                    assert(before.owns(earlier[j]->0));
                }
            }
        }
        k += 1;
    }
    Ok(())
}

/// Granted contributions have no failure.
proof fn lemma_granted_collect(graph: Graph, list: Seq<(usize, Tensor)>, parts: Parts)
    requires
        granted(graph, list, parts),
    ensures
        collect(exprs_of(parts)) is Ok,
{
    reveal(granted);
    let values = Seq::new(parts.len(), |k: int| list[k].1@);
    assert forall|k: int| 0 <= k < parts.len() implies #[trigger] exprs_of(parts)[k] == Expr::Is(
        values[k],
    ) by {
        assert(parts[k].1 == Expr::Is(list[k].1@));
    }
    lemma_collect_ok(exprs_of(parts), values);
}

/// Refused contributions collect to their first failure.
proof fn lemma_refused_collect(parts: Parts, error: Error)
    requires
        refused(parts, error),
    ensures
        collect(exprs_of(parts)) == Err::<Seq<Value>, Error>(error),
{
    reveal(refused);
    let at = choose|at: int| #[trigger] crate::gradients::fails_at(parts, at, error);
    assert forall|k: int| 0 <= k < at implies #[trigger] exprs_of(parts)[k] is Is by {
        assert(parts[k].1 is Is);
    }
    lemma_collect_err(exprs_of(parts), at, error);
}

/// Let every position from the last to the first contribute to its operands.
fn sweep(
    graph: &mut Graph,
    known: &mut Vec<Option<Tensor>>,
    Ghost(origin): Ghost<Graph>,
    Ghost(root): Ghost<int>,
) -> (r: Result<(), Error>)
    requires
        origin.wf(),
        old(graph).extends(origin),
        root < origin.model().len(),
        all_owned(*old(graph), old(known)@),
        old(known)@.len() == origin.model().len(),
        shaped(views(old(known)@), origin.model(), origin.wires(), origin.key(), root),
        forall|at: int|
            0 <= at <= root && #[trigger] on_path(origin.model(), origin.wires(), root, at)
                ==> differentiable(origin.model()[at].op),
    ensures
        final(graph).extends(*old(graph)),
        final(known)@.len() == old(known)@.len(),
        all_owned(*final(graph), final(known)@),
        match r {
            Ok(_) => swept(
                origin.model(),
                origin.wires(),
                views(old(known)@),
                origin.model().len(),
            ) == Ok::<Known, Error>(views(final(known)@)),
            Err(e) => swept(
                origin.model(),
                origin.wires(),
                views(old(known)@),
                origin.model().len(),
            ) == Err::<Known, Error>(e),
        },
{
    let ghost values = origin.model();
    let ghost wires = origin.wires();
    let ghost start = views(known@);
    proof {
        lemma_well_wired(origin);
    }
    let mut at: usize = known.len();
    while at > 0
        invariant
            origin.wf(),
            well_wired(values, wires, origin.key()),
            values == origin.model(),
            wires == origin.wires(),
            root < values.len(),
            graph.extends(*old(graph)),
            graph.extends(origin),
            old(graph).extends(origin),
            start == views(old(known)@),
            old(known)@.len() == values.len(),
            known@.len() == values.len(),
            all_owned(*graph, known@),
            shaped(views(known@), values, wires, origin.key(), root),
            at <= values.len(),
            swept(values, wires, start, values.len()) == swept(
                values,
                wires,
                views(known@),
                at as nat,
            ),
            forall|k: int|
                0 <= k <= root && #[trigger] on_path(values, wires, root, k) ==> differentiable(
                    values[k].op,
                ),
        decreases at,
    {
        let ghost bound = at as nat;
        let ghost current = views(known@);
        at = at - 1;
        let dy: Option<Tensor> = match &known[at] {
            Some(t) => Some(t.copy()),
            None => None,
        };
        if let Some(d) = dy {
            let node: &Node = graph.node_at(at);
            let op: Op = node.op.duplicate();
            let operands: Vec<usize> = crate::op::copied(&node.operands);
            let args: Vec<Tensor> = graph.operands_at(at);
            let out: Tensor = graph.tensor_at(at);
            proof {
                assert(current[at as int] == Some(d@));
                assert(graph.owns(known@[at as int]->0));
                assert(out@ == values[at as int]);
                assert(operands@ == wires[at as int]);
                assert(values[at as int].graph == origin.key());
                assert(on_path(values, wires, root, at as int));
                contributions_have_operand_extents(out@, d@);
                lemma_stepped_shaped(current, values, wires, origin.key(), root, at as int);
            }
            let ghost parts = rule(out@, d@);
            let ghost before = *graph;
            match contributions(graph, &op, &args, &out, &d) {
                Err(e) => {
                    proof {
                        lemma_refused_collect(parts, e);
                        assert forall|j: int|
                            0 <= j < known@.len() && (#[trigger] known@[j]) is Some implies
                            graph.owns(known@[j]->0) by {
                            assert(before.owns(known@[j]->0));
                        }
                    }
                    return Err(e);
                },
                Ok(list) => {
                    proof {
                        lemma_granted_collect(*graph, list@, parts);
                        assert forall|j: int|
                            0 <= j < known@.len() && (#[trigger] known@[j]) is Some implies
                            graph.owns(known@[j]->0) by {
                            assert(before.owns(known@[j]->0));
                        }
                        reveal(granted);
                        assert forall|k: int| 0 <= k < list@.len() implies (
                        #[trigger] list@[k]).0 < operands@.len() by {
                            assert(fits_operand(out@, parts[k]));
                        }
                        assert forall|k: int| 0 <= k < operands@.len() implies #[trigger] operands@[k]
                            < known@.len() by {
                            assert(wires[at as int][k] < at);
                        }
                    }
                    accumulate(graph, known, &operands, &list, Ghost(parts))?;
                },
            }
        }
    }
    Ok(())
}

impl Tensor {
    /// The refusal of gradients before anything is recorded.
    fn check_gradients(&self, graph: &Graph, inputs: &[Tensor], cotangent: Option<&Tensor>) -> (r:
        Result<(), Error>)
        requires
            graph.wf(),
            graph.owns(*self),
            graph.admits_all(inputs@),
            cotangent is Some ==> graph.admits(*cotangent->0),
        ensures
            match r {
                Ok(_) => {
                    &&& grad_refusal(
                        *graph,
                        *self,
                        values_of(inputs@),
                        crate::nn::operand(cotangent),
                    ) is None
                    &&& forall|k: int|
                        0 <= k < inputs@.len() ==> graph.owns(#[trigger] inputs@[k])
                    &&& forall|at: int|
                        0 <= at <= self.id() && #[trigger] on_path(
                            graph.model(),
                            graph.wires(),
                            self.id() as int,
                            at,
                        ) ==> differentiable(graph.model()[at].op)
                },
                Err(e) => grad_refusal(
                    *graph,
                    *self,
                    values_of(inputs@),
                    crate::nn::operand(cotangent),
                ) == Some(e),
            },
    {
        let ghost values = values_of(inputs@);
        let mut i: usize = 0;
        let mut floats: bool = self.dtype() == DType::F32;
        if let Some(seed) = cotangent {
            if seed.dtype() != DType::F32 {
                floats = false;
            }
        }
        let ghost first = floats;
        while i < inputs.len()
            invariant
                graph.admits_all(inputs@),
                values == values_of(inputs@),
                i <= inputs@.len(),
                floats == (first && forall|k: int|
                    0 <= k < i ==> (#[trigger] values[k]).dtype == DType::F32),
            decreases inputs@.len() - i,
        {
            assert(graph.admits(inputs@[i as int]));
            assert(values[i as int] == inputs@[i as int]@);
            if inputs[i].dtype() != DType::F32 {
                floats = false;
            }
            i += 1;
        }
        if !floats {
            return Err(err("autodiff requires F32 outputs, inputs and cotangents"));
        }
        let mut i: usize = 0;
        while i < inputs.len()
            invariant
                graph.wf(),
                graph.owns(*self),
                graph.admits_all(inputs@),
                values == values_of(inputs@),
                i <= inputs@.len(),
                leaves_refusal(self@.graph, values, i as nat) is None,
                forall|k: int| 0 <= k < i ==> graph.owns(#[trigger] inputs@[k]),
                self@.dtype == DType::F32,
                all_f32(values),
                crate::nn::operand(cotangent) matches Some(c) ==> c.dtype == DType::F32,
            decreases inputs@.len() - i,
        {
            assert(graph.admits(inputs@[i as int]));
            assert(values[i as int] == inputs@[i as int]@);
            let refusal: Option<Error> = if !self.same_graph(&inputs[i]) {
                Some(err("cross-graph gradient input"))
            } else {
                match graph.node_at(inputs[i].node_id()).op {
                    Op::Parameter(_) | Op::StateRead { .. } => None,
                    _ => Some(err("grad inputs must be graph input/parameter leaves")),
                }
            };
            assert(refusal == leaf_refusal(self@.graph, values[i as int]));
            if let Some(e) = refusal {
                proof {
                    lemma_leaves_refused(self@.graph, values, (i + 1) as nat, values.len(), e);
                }
                return Err(e);
            }
            i += 1;
        }
        graph.check_path(self.node_id())
    }

    /// The gradients of this value, from a cotangent or from one. A refusal, at
    /// whatever point it comes, leaves the graph as it was.
    fn reverse_gradients(
        &self,
        graph: &mut Graph,
        inputs: &[Tensor],
        cotangent: Option<&Tensor>,
    ) -> (r: Result<Vec<Tensor>, Error>)
        requires
            old(graph).wf(),
            old(graph).owns(*self),
            old(graph).admits_all(inputs@),
            cotangent is Some ==> old(graph).owns(*cotangent->0) && cotangent->0@.dims
                == self@.dims,
            cotangent is None ==> self@.dims.len() == 0,
        ensures
            final(graph).extends(*old(graph)),
            final(graph).yields_all(
                r,
                reverse_gradients(*old(graph), *self, inputs@, crate::nn::operand(cotangent)),
            ),
            r is Err ==> final(graph).same(*old(graph)),
    {
        let count: usize = graph.len();
        let parameters: usize = graph.parameter_count();
        let result: Result<Vec<Tensor>, Error> = self.record_gradients(graph, inputs, cotangent);
        if result.is_err() {
            graph.rewind(count, parameters, Ghost(*old(graph)));
        }
        result
    }

    /// Record the gradients of this value.
    fn record_gradients(
        &self,
        graph: &mut Graph,
        inputs: &[Tensor],
        cotangent: Option<&Tensor>,
    ) -> (r: Result<Vec<Tensor>, Error>)
        requires
            old(graph).wf(),
            old(graph).owns(*self),
            old(graph).admits_all(inputs@),
            cotangent is Some ==> old(graph).owns(*cotangent->0) && cotangent->0@.dims
                == self@.dims,
            cotangent is None ==> self@.dims.len() == 0,
        ensures
            final(graph).extends(*old(graph)),
            final(graph).yields_all(
                r,
                reverse_gradients(*old(graph), *self, inputs@, crate::nn::operand(cotangent)),
            ),
    {
        self.check_gradients(graph, inputs, cotangent)?;
        let ghost origin = *graph;
        let ghost root = self.id() as int;
        let count: usize = graph.len();
        let seed: Tensor = match cotangent {
            Some(seed) => seed.copy(),
            None => graph.scalar(Scalar::Bits(F32_ONE))?,
        };
        let mut known: Vec<Option<Tensor>> = Vec::new();
        let mut i: usize = 0;
        while i < count
            invariant
                i <= count,
                known@.len() == i,
                graph.owns(seed),
                root == self.id(),
                forall|k: int|
                    0 <= k < i ==> (#[trigger] known@[k]) == (if k == root {
                        known@[k]
                    } else {
                        None
                    }),
                forall|k: int|
                    0 <= k < i && k == root ==> (#[trigger] known@[k]) is Some && graph.owns(
                        known@[k]->0,
                    ) && known@[k]->0@ == seed@,
            decreases count - i,
        {
            if i == self.node_id() {
                known.push(Some(seed.copy()));
            } else {
                known.push(None);
            }
            i += 1;
        }
        proof {
            assert(views(known@) =~= seeded(origin.model().len(), root, seed@));
            if cotangent is None {
                crate::facts::lemma_scalar_extents(origin.key(), Scalar::Bits(F32_ONE));
                assert(seed@.dims =~= self@.dims);
            }
        }
        sweep(graph, &mut known, Ghost(origin), Ghost(root))?;
        let ghost last = views(known@);
        let ghost exprs = requested(origin.key(), last, inputs@);
        let mut results: Vec<Tensor> = Vec::new();
        let mut i: usize = 0;
        while i < inputs.len()
            invariant
                origin.wf(),
                origin == *old(graph),
                grad_refusal(
                    origin,
                    *self,
                    values_of(inputs@),
                    crate::nn::operand(cotangent),
                ) is None,
                reverse_gradients(origin, *self, inputs@, crate::nn::operand(cotangent)) == collect(
                    exprs,
                ),
                graph.extends(origin),
                all_owned(*graph, known@),
                known@.len() == origin.model().len(),
                last == views(known@),
                exprs == requested(origin.key(), last, inputs@),
                forall|k: int| 0 <= k < inputs@.len() ==> origin.owns(#[trigger] inputs@[k]),
                i <= inputs@.len(),
                results@.len() == i,
                forall|k: int|
                    0 <= k < i ==> graph.owns(#[trigger] results@[k]) && exprs[k] == Expr::Is(
                        results@[k]@,
                    ),
            ensures
                i == inputs@.len(),
            decreases inputs@.len() - i,
        {
            let ghost before = *graph;
            assert(origin.owns(inputs@[i as int]));
            let at: usize = inputs[i].node_id();
            let result: Tensor = match &known[at] {
                Some(gradient) => {
                    assert(graph.owns(known@[at as int]->0));
                    gradient.copy()
                },
                None => {
                    match zeros(graph, inputs[i].shape()) {
                        Ok(zero) => zero,
                        Err(e) => {
                            proof {
                                assert(exprs[i as int] == Expr::Fails(e));
                                assert forall|k: int| 0 <= k < i implies #[trigger] exprs[k] is Is by {
                                    assert(exprs[k] == Expr::Is(results@[k]@));
                                }
                                lemma_collect_err(exprs, i as int, e);
                            }
                            return Err(e);
                        },
                    }
                },
            };
            results.push(result);
            proof {
                assert forall|j: int|
                    0 <= j < known@.len() && (#[trigger] known@[j]) is Some implies graph.owns(
                    known@[j]->0,
                ) by {
                    assert(before.owns(known@[j]->0));
                }
                assert forall|k: int| 0 <= k < i + 1 implies graph.owns(#[trigger] results@[k])
                    && exprs[k] == Expr::Is(results@[k]@) by {
                    if k < i {
                        assert(before.owns(results@[k]));
                    }
                }
            }
            i += 1;
        }
        proof {
            lemma_collect_ok(exprs, values_of(results@));
        }
        Ok(results)
    }

    /// Gradients of this scalar with respect to graph inputs, in the requested
    /// order. Disconnected inputs get zeros; an operation without a derivative
    /// rule on the path is refused, and a refusal leaves the graph as it was.
    pub fn grad(&self, graph: &mut Graph, inputs: &[Tensor]) -> (r: Result<Vec<Tensor>, Error>)
        requires
            old(graph).wf(),
            old(graph).owns(*self),
            old(graph).admits_all(inputs@),
        ensures
            final(graph).extends(*old(graph)),
            final(graph).yields_all(
                r,
                if self@.dims.len() != 0 {
                    Err(invalid("grad requires a scalar loss"))
                } else {
                    reverse_gradients(*old(graph), *self, inputs@, None)
                },
            ),
            r is Err ==> final(graph).same(*old(graph)),
    {
        if self.shape().len() != 0 {
            return Err(err("grad requires a scalar loss"));
        }
        self.reverse_gradients(graph, inputs, None)
    }

    /// A vector-Jacobian product: gradients of this value weighted by a
    /// cotangent of its shape, with the rules of `grad`.
    pub fn vjp(&self, graph: &mut Graph, inputs: &[Tensor], cotangent: &Tensor) -> (r: Result<
        Vec<Tensor>,
        Error,
    >)
        requires
            old(graph).wf(),
            old(graph).owns(*self),
            old(graph).admits_all(inputs@),
            old(graph).admits(*cotangent),
        ensures
            final(graph).extends(*old(graph)),
            final(graph).yields_all(
                r,
                if cotangent@.graph != self@.graph {
                    Err(invalid("cross-graph cotangent"))
                } else if cotangent@.dims != self@.dims {
                    Err(invalid("cotangent must match output shape; broadcast explicitly"))
                } else {
                    reverse_gradients(*old(graph), *self, inputs@, Some(cotangent@))
                },
            ),
            r is Err ==> final(graph).same(*old(graph)),
    {
        if !self.same_graph(cotangent) {
            return Err(err("cross-graph cotangent"));
        }
        if !same_dims(self.shape(), cotangent.shape()) {
            return Err(err("cotangent must match output shape; broadcast explicitly"));
        }
        self.reverse_gradients(graph, inputs, Some(cotangent))
    }
}

/// Zeros of the given extents.
fn zeros(graph: &mut Graph, dims: &[i64]) -> (r: Result<Tensor, Error>)
    requires
        old(graph).wf(),
    ensures
        final(graph).extends(*old(graph)),
        final(graph).yields(
            r,
            scalar(old(graph).key(), Scalar::Bits(F32_ZERO)).broadcast_to(dims@),
        ),
{
    let zero: Tensor = graph.scalar(Scalar::Bits(F32_ZERO))?;
    zero.broadcast_to(graph, dims)
}

/// A refusal found early is the refusal in the end.
proof fn lemma_leaves_refused(
    graph: u64,
    inputs: Seq<Value>,
    early: nat,
    count: nat,
    error: Error,
)
    requires
        early <= count,
        leaves_refusal(graph, inputs, early) == Some(error),
    ensures
        leaves_refusal(graph, inputs, count) == Some(error),
    decreases count - early,
{
    if early < count {
        lemma_leaves_refused(graph, inputs, early + 1, count, error);
    }
}

/// What a list of expressions collects to, element by element.
pub(crate) proof fn lemma_collected(exprs: Seq<Expr>)
    requires
        collect(exprs) is Ok,
    ensures
        collect(exprs)->Ok_0.len() == exprs.len(),
        forall|k: int|
            0 <= k < exprs.len() ==> #[trigger] exprs[k] == Expr::Is(collect(exprs)->Ok_0[k]),
    decreases exprs.len(),
{
    if exprs.len() > 0 {
        lemma_collected(exprs.drop_last());
        assert forall|k: int| 0 <= k < exprs.len() implies #[trigger] exprs[k] == Expr::Is(
            collect(exprs)->Ok_0[k],
        ) by {
            if k < exprs.len() - 1 {
                assert(exprs.drop_last()[k] == exprs[k]);
            }
        }
    }
}

/// The gradients of every position after a sweep from a cotangent.
pub open spec fn final_gradients(graph: Graph, loss: Tensor, seed: Value) -> Result<Known, Error> {
    swept(
        graph.model(),
        graph.wires(),
        seeded(graph.model().len(), loss.id() as int, seed),
        graph.model().len(),
    )
}

/// After a sweep, gradients are known only where gradients reach, and each has
/// the extents of its value.
pub proof fn gradients_stay_on_the_path(graph: Graph, loss: Tensor, seed: Value)
    requires
        graph.wf(),
        graph.owns(loss),
        seed.graph == graph.key(),
        seed.dims == loss@.dims,
    ensures
        final_gradients(graph, loss, seed) matches Ok(known) ==> shaped(
            known,
            graph.model(),
            graph.wires(),
            graph.key(),
            loss.id() as int,
        ),
{
    lemma_well_wired(graph);
    lemma_swept_shaped(
        seeded(graph.model().len(), loss.id() as int, seed),
        graph.model(),
        graph.wires(),
        graph.key(),
        loss.id() as int,
        graph.model().len(),
    );
}

/// The cotangent of a sweep: the given one, or one.
pub open spec fn seed_of(graph: Graph, cotangent: Option<Value>) -> Expr {
    match cotangent {
        Some(c) => Expr::Is(c),
        None => scalar(graph.key(), Scalar::Bits(F32_ONE)),
    }
}

/// Every gradient has the extents of the input it was requested for.
pub proof fn gradients_have_input_extents(
    graph: Graph,
    loss: Tensor,
    inputs: Seq<Tensor>,
    cotangent: Option<Value>,
)
    requires
        graph.wf(),
        graph.owns(loss),
        forall|k: int| 0 <= k < inputs.len() ==> graph.owns(#[trigger] inputs[k]),
        match cotangent {
            Some(c) => c.graph == graph.key() && c.dims == loss@.dims,
            None => loss@.dims.len() == 0,
        },
    ensures
        reverse_gradients(graph, loss, inputs, cotangent) matches Ok(result) ==> result.len()
            == inputs.len() && forall|k: int|
            0 <= k < inputs.len() ==> (#[trigger] result[k]).dims == inputs[k]@.dims,
{
    if let Ok(result) = reverse_gradients(graph, loss, inputs, cotangent) {
        let seed = seed_of(graph, cotangent)->Is_0;
        if cotangent is None {
            crate::facts::lemma_scalar_extents(graph.key(), Scalar::Bits(F32_ONE));
            assert(seed.dims =~= loss@.dims);
        }
        gradients_stay_on_the_path(graph, loss, seed);
        let known = final_gradients(graph, loss, seed)->Ok_0;
        let exprs = requested(graph.key(), known, inputs);
        lemma_collected(exprs);
        assert forall|k: int| 0 <= k < inputs.len() implies (#[trigger] result[k]).dims
            == inputs[k]@.dims by {
            assert(graph.owns(inputs[k]));
            assert(exprs[k] == Expr::Is(result[k]));
            let at = inputs[k].id() as int;
            if known[at] is None {
                crate::facts::broadcast_to_lands(
                    scalar(graph.key(), Scalar::Bits(F32_ZERO)),
                    inputs[k]@.dims,
                );
            }
        }
    }
}

/// Requests for one input give one gradient.
pub proof fn duplicate_requests_agree(
    graph: Graph,
    loss: Tensor,
    inputs: Seq<Tensor>,
    cotangent: Option<Value>,
    i: int,
    j: int,
)
    requires
        graph.wf(),
        forall|k: int| 0 <= k < inputs.len() ==> graph.owns(#[trigger] inputs[k]),
        0 <= i < inputs.len(),
        0 <= j < inputs.len(),
        inputs[i].id() == inputs[j].id(),
    ensures
        reverse_gradients(graph, loss, inputs, cotangent) matches Ok(result) ==> result[i]
            == result[j],
{
    if let Ok(result) = reverse_gradients(graph, loss, inputs, cotangent) {
        let seed = seed_of(graph, cotangent)->Is_0;
        let known = final_gradients(graph, loss, seed)->Ok_0;
        let exprs = requested(graph.key(), known, inputs);
        lemma_collected(exprs);
        assert(graph.owns(inputs[i]) && graph.owns(inputs[j]));
        assert(exprs[i] == Expr::Is(result[i]));
        assert(exprs[j] == Expr::Is(result[j]));
    }
}

/// An input that no gradient reaches gets zeros of its extents.
pub proof fn disconnected_inputs_get_zeros(
    graph: Graph,
    loss: Tensor,
    inputs: Seq<Tensor>,
    cotangent: Option<Value>,
    k: int,
)
    requires
        graph.wf(),
        graph.owns(loss),
        forall|j: int| 0 <= j < inputs.len() ==> graph.owns(#[trigger] inputs[j]),
        match cotangent {
            Some(c) => c.graph == graph.key() && c.dims == loss@.dims,
            None => loss@.dims.len() == 0,
        },
        0 <= k < inputs.len(),
        !on_path(graph.model(), graph.wires(), loss.id() as int, inputs[k].id() as int),
    ensures
        reverse_gradients(graph, loss, inputs, cotangent) matches Ok(result) ==> Expr::Is(result[k])
            == scalar(graph.key(), Scalar::Bits(F32_ZERO)).broadcast_to(inputs[k]@.dims),
{
    if let Ok(result) = reverse_gradients(graph, loss, inputs, cotangent) {
        let seed = seed_of(graph, cotangent)->Is_0;
        if cotangent is None {
            crate::facts::lemma_scalar_extents(graph.key(), Scalar::Bits(F32_ONE));
            assert(seed.dims =~= loss@.dims);
        }
        gradients_stay_on_the_path(graph, loss, seed);
        let known = final_gradients(graph, loss, seed)->Ok_0;
        let exprs = requested(graph.key(), known, inputs);
        lemma_collected(exprs);
        assert(graph.owns(inputs[k]));
        assert(exprs[k] == Expr::Is(result[k]));
        assert(known[inputs[k].id() as int] is None);
    }
}

/// Gradients are refused for a missing rule exactly where an operation without
/// one is on the path.
pub proof fn refusal_means_an_obstacle(graph: Graph, root: int)
    requires
        graph.wf(),
        0 <= root < graph.model().len(),
    ensures
        path_refusal(graph.model(), graph.wires(), root) is None <==> forall|at: int|
            0 <= at <= root && #[trigger] on_path(graph.model(), graph.wires(), root, at)
                ==> differentiable(graph.model()[at].op),
{
    let values = graph.model();
    let wires = graph.wires();
    if exists|at: int|
        0 <= at <= root && #[trigger] on_path(values, wires, root, at) && !differentiable(
            values[at].op,
        ) {
        let at = choose|at: int|
            0 <= at <= root && #[trigger] on_path(values, wires, root, at) && !differentiable(
                values[at].op,
            );
        lemma_obstacle_exists(values, wires, root, at);
    }
}

/// Where some operation without a rule is on the path, one of them is last.
proof fn lemma_obstacle_exists(values: Seq<Value>, wires: Seq<Seq<usize>>, root: int, at: int)
    requires
        0 <= at <= root,
        on_path(values, wires, root, at),
        !differentiable(values[at].op),
    ensures
        exists|last: int| #[trigger] obstacle(values, wires, root, last),
    decreases root - at,
{
    if exists|later: int|
        at < later <= root && #[trigger] on_path(values, wires, root, later) && !differentiable(
            values[later].op,
        ) {
        let later = choose|later: int|
            at < later <= root && #[trigger] on_path(values, wires, root, later) && !differentiable(
                values[later].op,
            );
        lemma_obstacle_exists(values, wires, root, later);
    } else {
        assert(obstacle(values, wires, root, at));
    }
}

/// The gradients of a scalar are its vector-Jacobian product with one.
pub proof fn grad_is_the_product_with_one(
    graph: Graph,
    loss: Tensor,
    inputs: Seq<Tensor>,
    one: Value,
)
    requires
        scalar(graph.key(), Scalar::Bits(F32_ONE)) == Expr::Is(one),
    ensures
        reverse_gradients(graph, loss, inputs, None) == reverse_gradients(
            graph,
            loss,
            inputs,
            Some(one),
        ),
{
    reveal(crate::graph::applied);
}

} // verus!
