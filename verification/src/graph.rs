//! The tensor graph: a list of operations in static single assignment form,
//! handles to its values, and the mathematical model that contracts speak of.
use crate::dtype::{infer, inferred, DType};
use crate::error::{err, invalid, Error, IrError};
use crate::op::{op_name, operation_name, Op, OpModel, Scalar};
use crate::shape::{bad_shape, elements, volume};
use crate::sound::sound;
use vstd::prelude::*;

verus! {

/// Static extents and element type of a value.
#[derive(Debug)]
pub struct TensorType {
    pub dims: Vec<i64>,
    pub dtype: DType,
}

/// The mathematical content of a type.
pub struct TypeModel {
    pub dims: Seq<i64>,
    pub dtype: DType,
}

impl View for TensorType {
    type V = TypeModel;

    open spec fn view(&self) -> TypeModel {
        TypeModel { dims: self.dims@, dtype: self.dtype }
    }
}

impl TensorType {
    /// Another copy of the type.
    pub fn duplicate(&self) -> (r: TensorType)
        ensures
            r@ == self@,
    {
        TensorType { dims: crate::op::copied(&self.dims), dtype: self.dtype }
    }
}

/// One operation of a graph, with the positions of its operands.
pub struct Node {
    pub op: Op,
    pub operands: Vec<usize>,
    pub ty: TensorType,
}

/// What a tensor stands for: the operation that yields it, applied to the
/// values of its operands, with its static extents and element type.
pub struct Value {
    pub graph: u64,
    pub op: OpModel,
    pub args: Seq<Value>,
    pub dims: Seq<i64>,
    pub dtype: DType,
}

/// What constructing an expression gives: a value, or the first failure.
pub enum Expr {
    Is(Value),
    Fails(Error),
}

impl Expr {
    /// The expression that fails with a fixed explanation.
    pub open spec fn invalid(message: &'static str) -> Expr {
        Expr::Fails(invalid(message))
    }

    /// The expression, unless one that is built before it fails.
    pub open spec fn given(self, earlier: Expr) -> Expr {
        match earlier {
            Expr::Fails(e) => Expr::Fails(e),
            Expr::Is(_) => self,
        }
    }
}

/// The type of a value.
pub open spec fn type_of(v: Value) -> TypeModel {
    TypeModel { dims: v.dims, dtype: v.dtype }
}

/// The element types of a list of values.
pub open spec fn types_of(args: Seq<Value>) -> Seq<DType> {
    Seq::new(args.len(), |i: int| args[i].dtype)
}

/// Whether the intermediate representation can record the operation.
pub open spec fn recordable(op: OpModel) -> bool {
    !(op is Conv2dInputGradient)
}

/// An operation of known element type, recorded if its extents have an element
/// count and the representation supports it.
pub open spec fn recorded(
    graph: u64,
    op: OpModel,
    args: Seq<Value>,
    dims: Seq<i64>,
    dtype: DType,
) -> Expr {
    if volume(dims) is None {
        Expr::Fails(bad_shape())
    } else if !recordable(op) {
        Expr::Fails(Error::Ir { source: IrError::UnsupportedOperation { operation: op_name(op) } })
    } else {
        Expr::Is(Value { graph, op, args, dims, dtype })
    }
}

/// An operation applied to operands, its element type following from theirs.
#[verifier::opaque]
pub open spec fn applied(graph: u64, op: OpModel, args: Seq<Value>, dims: Seq<i64>) -> Expr {
    match inferred(op, types_of(args)) {
        Err(e) => Expr::Fails(e),
        Ok(dtype) => recorded(graph, op, args, dims, dtype),
    }
}

/// An operation applied to operands, whose element type must be `dtype`.
#[verifier::opaque]
pub open spec fn typed(
    graph: u64,
    op: OpModel,
    args: Seq<Value>,
    dims: Seq<i64>,
    dtype: DType,
) -> Expr {
    if volume(dims) is None {
        Expr::Fails(bad_shape())
    } else {
        match inferred(op, types_of(args)) {
            Err(e) => Expr::Fails(e),
            Ok(found) => if found != dtype {
                Expr::invalid("operation output dtype mismatch")
            } else {
                recorded(graph, op, args, dims, dtype)
            },
        }
    }
}

/// A handle to one value of a graph. Clones stand for the same value.
pub struct Tensor {
    graph: u64,
    node: usize,
    shape: Vec<i64>,
    dtype: DType,
    value: Ghost<Value>,
}

impl View for Tensor {
    type V = Value;

    closed spec fn view(&self) -> Value {
        self.value@
    }
}

impl Tensor {
    /// The position of the value in its graph.
    pub closed spec fn id(self) -> usize {
        self.node
    }

    /// The handle agrees with the value that it stands for.
    pub closed spec fn wf(self) -> bool {
        &&& self.graph == self@.graph
        &&& self.shape@ == self@.dims
        &&& self.dtype == self@.dtype
        &&& volume(self@.dims) is Some
    }

    /// The value as an expression that cannot fail.
    pub open spec fn expr(self) -> Expr {
        Expr::Is(self@)
    }

    /// The extents of a handle have an element count.
    pub proof fn lemma_counted(self)
        requires
            self.wf(),
        ensures
            volume(self@.dims) is Some,
            self@.dims.len() <= usize::MAX,
    {
        assert(self.shape.len() <= usize::MAX);
    }

    /// Static extents.
    pub fn shape(&self) -> (r: &[i64])
        requires
            self.wf(),
        ensures
            r@ == self@.dims,
            volume(r@) is Some,
    {
        self.shape.as_slice()
    }

    /// Element type.
    pub fn dtype(&self) -> (r: DType)
        requires
            self.wf(),
        ensures
            r == self@.dtype,
    {
        self.dtype
    }

    /// The position of the value in its graph.
    pub fn node_id(&self) -> (r: usize)
        ensures
            r == self.id(),
    {
        self.node
    }

    /// The identity of the graph that the value belongs to.
    pub fn graph_id(&self) -> (r: u64)
        requires
            self.wf(),
        ensures
            r == self@.graph,
    {
        self.graph
    }

    /// Whether two handles belong to one graph.
    pub(crate) fn same_graph(&self, other: &Tensor) -> (r: bool)
        requires
            self.wf(),
            other.wf(),
        ensures
            r == (self@.graph == other@.graph),
    {
        self.graph == other.graph
    }

    /// The type of the value.
    pub fn ty(&self) -> (r: TensorType)
        requires
            self.wf(),
        ensures
            r@ == type_of(self@),
    {
        TensorType { dims: crate::op::copied(&self.shape), dtype: self.dtype }
    }

    /// Another handle to the same value.
    pub(crate) fn copy(&self) -> (r: Tensor)
        ensures
            r@ == self@,
            r.id() == self.id(),
            self.wf() ==> r.wf(),
    {
        Tensor {
            graph: self.graph,
            node: self.node,
            shape: crate::op::copied(&self.shape),
            dtype: self.dtype,
            value: self.value,
        }
    }
}

impl Clone for Tensor {
    fn clone(&self) -> (r: Tensor)
        ensures
            r@ == self@,
            r.id() == self.id(),
            self.wf() ==> r.wf(),
    {
        self.copy()
    }
}

/// The values at the given positions.
pub open spec fn picked(values: Seq<Value>, operands: Seq<usize>) -> Seq<Value> {
    Seq::new(operands.len(), |k: int| values[operands[k] as int])
}

/// A tensor program under construction: operations in the order in which they
/// were recorded. Operands always precede the operations that use them.
pub struct Graph {
    id: u64,
    nodes: Vec<Node>,
    parameters: usize,
    values: Ghost<Seq<Value>>,
}

/// Whether an operation is a program parameter.
pub open spec fn is_parameter(op: OpModel) -> bool {
    op is Parameter || op is StateInput
}

/// The registration number of a parameter.
pub open spec fn number_of(op: OpModel) -> usize {
    match op {
        OpModel::Parameter(number) => number,
        OpModel::StateInput { number, .. } => number,
        _ => 0,
    }
}

/// The number of program parameters among the first values.
pub open spec fn parameter_total(values: Seq<Value>) -> nat
    decreases values.len(),
{
    if values.len() == 0 {
        0
    } else {
        let last: nat = if is_parameter(values.last().op) {
            1
        } else {
            0
        };
        parameter_total(values.drop_last()) + last
    }
}

/// More values hold no fewer parameters.
pub proof fn lemma_parameter_total_grows(values: Seq<Value>, low: int, high: int)
    requires
        0 <= low <= high <= values.len(),
    ensures
        parameter_total(values.take(low)) <= parameter_total(values.take(high)),
        low < high && is_parameter(values[low].op) ==> parameter_total(values.take(low))
            < parameter_total(values.take(high)),
    decreases high - low,
{
    if low < high {
        assert(values.take(low + 1).drop_last() =~= values.take(low));
        lemma_parameter_total_grows(values, low + 1, high);
    }
}

/// A graph has no more parameters than values.
pub proof fn lemma_parameters_bounded(values: Seq<Value>)
    ensures
        parameter_total(values) <= values.len(),
    decreases values.len(),
{
    if values.len() > 0 {
        lemma_parameters_bounded(values.drop_last());
    }
}

/// A graph that has grown has no fewer parameters.
pub broadcast proof fn parameters_grow(new: Graph, old: Graph)
    requires
        #[trigger] new.extends(old),
    ensures
        parameter_total(old.model()) <= parameter_total(new.model()),
{
    let low = old.model().len() as int;
    lemma_parameter_total_grows(new.model(), low, new.model().len() as int);
    assert(new.model().take(low) =~= old.model());
    assert(new.model().take(new.model().len() as int) =~= new.model());
}

impl Graph {
    /// The identity by which handles find their graph.
    pub closed spec fn key(self) -> u64 {
        self.id
    }

    /// The values of the graph, in recording order.
    pub closed spec fn model(self) -> Seq<Value> {
        self.values@
    }

    /// The operand positions of every value, in recording order.
    pub closed spec fn wires(self) -> Seq<Seq<usize>> {
        Seq::new(self.nodes@.len(), |i: int| self.nodes@[i].operands@)
    }

    spec fn node_wf(self, i: int) -> bool {
        let node = self.nodes@[i];
        let value = self.values@[i];
        &&& value.graph == self.id
        &&& value.op == node.op@
        &&& value.args == picked(self.values@, node.operands@)
        &&& value.dims == node.ty.dims@
        &&& value.dtype == node.ty.dtype
        &&& volume(value.dims) is Some
        &&& sound(value.op, value.args, value.dims)
        &&& forall|k: int| 0 <= k < node.operands@.len() ==> #[trigger] node.operands@[k] < i
    }

    /// The recorded nodes agree with the values that they stand for.
    pub closed spec fn wf(self) -> bool {
        &&& self.nodes@.len() == self.values@.len()
        &&& self.parameters == parameter_total(self.values@)
        &&& forall|i: int| 0 <= i < self.nodes@.len() ==> #[trigger] self.node_wf(i)
        &&& forall|i: int|
            0 <= i < self.values@.len() && is_parameter((#[trigger] self.values@[i]).op)
                ==> number_of(self.values@[i].op) == parameter_total(self.values@.take(i))
    }

    /// A well-formed handle that, where it names this graph, stands for the
    /// value at its position.
    pub open spec fn admits(self, t: Tensor) -> bool {
        &&& t.wf()
        &&& t@.graph == self.key() ==> t.id() < self.model().len() && self.model()[t.id() as int]
            == t@
    }

    /// A handle to a value of this graph.
    pub open spec fn owns(self, t: Tensor) -> bool {
        self.admits(t) && t@.graph == self.key()
    }

    /// The graph has only grown: its earlier values, and with them every
    /// handle, are untouched.
    pub open spec fn extends(self, old: Graph) -> bool {
        &&& self.wf()
        &&& self.key() == old.key()
        &&& old.model().len() <= self.model().len()
        &&& forall|i: int|
            0 <= i < old.model().len() ==> #[trigger] self.model()[i] == old.model()[i]
        &&& forall|i: int|
            0 <= i < old.model().len() ==> #[trigger] self.wires()[i] == old.wires()[i]
        &&& forall|t: Tensor| old.admits(t) ==> #[trigger] self.admits(t)
    }

    /// The graph holds exactly what another one holds.
    pub open spec fn same(self, other: Graph) -> bool {
        &&& self.wf()
        &&& self.key() == other.key()
        &&& self.model() == other.model()
        &&& self.wires() == other.wires()
    }

    /// The outcome is what the expression says: its value, held by this graph,
    /// or its failure.
    pub open spec fn yields(self, r: Result<Tensor, Error>, e: Expr) -> bool {
        match r {
            Ok(t) => self.owns(t) && e == Expr::Is(t@),
            Err(error) => e == Expr::Fails(error),
        }
    }

    /// The outcome was recorded as one new value, and nothing else was. An error
    /// records nothing.
    pub open spec fn records(self, old: Graph, r: Result<Tensor, Error>) -> bool {
        match r {
            Ok(t) => t.id() == old.model().len() && self.model() == old.model().push(t@),
            Err(_) => self == old,
        }
    }

    /// The outcome is an earlier value and nothing was recorded, or it was
    /// recorded as one new value, and nothing else was.
    pub open spec fn keeps_or_records(self, old: Graph, r: Result<Tensor, Error>) -> bool {
        self == old || self.records(old, r)
    }

    /// Every value has its operand positions.
    pub proof fn lemma_lengths(self)
        requires
            self.wf(),
        ensures
            self.wires().len() == self.model().len(),
    {
    }

    /// What holds of the value at every position.
    pub proof fn lemma_position(self, i: int)
        requires
            self.wf(),
            0 <= i < self.model().len(),
        ensures
            self.wires().len() == self.model().len(),
            self.model()[i].graph == self.key(),
            self.model()[i].args == picked(self.model(), self.wires()[i]),
            sound(self.model()[i].op, self.model()[i].args, self.model()[i].dims),
            volume(self.model()[i].dims) is Some,
            self.model()[i].dims.len() <= usize::MAX,
            forall|k: int|
                0 <= k < self.wires()[i].len() ==> #[trigger] self.wires()[i][k] < i,
    {
        assert(self.node_wf(i));
        assert(self.nodes@[i].ty.dims.len() <= usize::MAX);
    }

    /// An empty graph with the given identity. Handles name their graph by it, so
    /// graphs that live at the same time must have different identities.
    pub fn new(id: u64) -> (r: Graph)
        ensures
            r.wf(),
            r.key() == id,
            r.model() == Seq::<Value>::empty(),
    {
        Graph { id, nodes: Vec::new(), parameters: 0, values: Ghost(Seq::empty()) }
    }

    /// The identity by which handles find their graph.
    pub fn id(&self) -> (r: u64)
        ensures
            r == self.key(),
    {
        self.id
    }

    /// The number of recorded operations.
    pub fn len(&self) -> (r: usize)
        requires
            self.wf(),
        ensures
            r == self.model().len(),
    {
        self.nodes.len()
    }

    /// The number of program parameters, tensor inputs and state inputs alike.
    pub fn parameter_count(&self) -> (r: usize)
        requires
            self.wf(),
        ensures
            r == parameter_total(self.model()),
    {
        self.parameters
    }

    /// Drop what was recorded since an earlier state.
    pub(crate) fn rewind(
        &mut self,
        count: usize,
        parameters: usize,
        Ghost(origin): Ghost<Graph>,
    )
        requires
            origin.wf(),
            old(self).extends(origin),
            count == origin.model().len(),
            parameters == parameter_total(origin.model()),
        ensures
            final(self).same(origin),
    {
        let ghost before = *self;
        self.nodes.truncate(count);
        self.parameters = parameters;
        self.values = Ghost(origin.values@);
        proof {
            assert forall|i: int| 0 <= i < count implies #[trigger] self.node_wf(i) by {
                assert(before.node_wf(i));
                assert(before.model()[i] == origin.model()[i]);
                let operands = before.nodes@[i].operands@;
                assert(picked(before.values@, operands) =~= picked(origin.values@, operands)) by {
                    assert forall|k: int| 0 <= k < operands.len() implies before.values@[
                    operands[k] as int] == origin.values@[operands[k] as int] by {
                        assert(operands[k] < i);
                        assert(before.model()[operands[k] as int] == origin.model()[
                        operands[k] as int]);
                    }
                }
            }
            assert(self.wires() =~= origin.wires()) by {
                assert forall|i: int| 0 <= i < count implies #[trigger] self.wires()[i]
                    == origin.wires()[i] by {
                    assert(before.wires()[i] == origin.wires()[i]);
                }
            }
        }
    }

    /// Parameters are numbered in the order of their registration.
    pub proof fn lemma_numbers(self)
        requires
            self.wf(),
        ensures
            parameter_total(self.model()) <= usize::MAX,
            forall|i: int|
                0 <= i < self.model().len() && is_parameter((#[trigger] self.model()[i]).op)
                    ==> number_of(self.model()[i].op) == parameter_total(self.model().take(i)),
    {
    }

    /// One recorded operation.
    pub fn node_at(&self, index: usize) -> (r: &Node)
        requires
            self.wf(),
            index < self.model().len(),
        ensures
            r.op@ == self.model()[index as int].op,
            r.operands@ == self.wires()[index as int],
            r.ty.dims@ == self.model()[index as int].dims,
            r.ty.dtype == self.model()[index as int].dtype,
            self.model()[index as int].graph == self.key(),
            self.model()[index as int].args == picked(self.model(), r.operands@),
            sound(
                self.model()[index as int].op,
                self.model()[index as int].args,
                self.model()[index as int].dims,
            ),
            volume(self.model()[index as int].dims) is Some,
            forall|k: int| 0 <= k < r.operands@.len() ==> #[trigger] r.operands@[k] < index,
    {
        assert(self.node_wf(index as int));
        &self.nodes[index]
    }

    /// A handle to the value at a position.
    pub fn tensor_at(&self, index: usize) -> (r: Tensor)
        requires
            self.wf(),
            index < self.model().len(),
        ensures
            self.owns(r),
            r.id() == index,
            r@ == self.model()[index as int],
    {
        assert(self.node_wf(index as int));
        let node = &self.nodes[index];
        Tensor {
            graph: self.id,
            node: index,
            shape: crate::op::copied(&node.ty.dims),
            dtype: node.ty.dtype,
            value: Ghost(self.values@[index as int]),
        }
    }

    /// The element types of the values at the given positions.
    fn operand_types(&self, operands: &Vec<usize>) -> (r: Vec<DType>)
        requires
            self.wf(),
            forall|k: int|
                0 <= k < operands@.len() ==> #[trigger] operands@[k] < self.model().len(),
        ensures
            r@ == types_of(picked(self.model(), operands@)),
    {
        let mut types: Vec<DType> = Vec::new();
        let mut k: usize = 0;
        while k < operands.len()
            invariant
                self.wf(),
                forall|j: int|
                    0 <= j < operands@.len() ==> #[trigger] operands@[j] < self.model().len(),
                k <= operands@.len(),
                types@.len() == k,
                forall|j: int|
                    0 <= j < k ==> #[trigger] types@[j] == self.model()[operands@[j] as int].dtype,
            decreases operands@.len() - k,
        {
            let index: usize = operands[k];
            assert(self.node_wf(index as int));
            types.push(self.nodes[index].ty.dtype);
            k += 1;
        }
        assert(types@ =~= types_of(picked(self.model(), operands@)));
        types
    }

    /// Append an operation whose extents and element type are settled.
    fn append(&mut self, op: Op, operands: Vec<usize>, dims: Vec<i64>, dtype: DType) -> (r: Result<
        Tensor,
        Error,
    >)
        requires
            old(self).wf(),
            forall|k: int|
                0 <= k < operands@.len() ==> #[trigger] operands@[k] < old(self).model().len(),
            volume(dims@) is Some,
            is_parameter(op@) ==> number_of(op@) == parameter_total(old(self).model()),
            sound(op@, picked(old(self).model(), operands@), dims@),
        ensures
            final(self).extends(*old(self)),
            final(self).yields(
                r,
                recorded(
                    old(self).key(),
                    op@,
                    picked(old(self).model(), operands@),
                    dims@,
                    dtype,
                ),
            ),
            final(self).records(*old(self), r),
    {
        match &op {
            Op::Conv2dInputGradient(_) => {
                return Err(
                    Error::Ir {
                        source: IrError::UnsupportedOperation { operation: operation_name(&op) },
                    },
                );
            },
            _ => {},
        }
        let node: usize = self.nodes.len();
        let ghost before = *self;
        let ghost value = Value {
            graph: self.id,
            op: op@,
            args: picked(self.values@, operands@),
            dims: dims@,
            dtype,
        };
        let counted: bool = match &op {
            Op::Parameter(_) => true,
            Op::StateInput { .. } => true,
            _ => false,
        };
        let shape: Vec<i64> = crate::op::copied(&dims);
        self.nodes.push(Node { op, operands, ty: TensorType { dims, dtype } });
        let total: usize = self.nodes.len();
        proof {
            lemma_parameters_bounded(self.values@);
        }
        self.values = Ghost(self.values@.push(value));
        if counted {
            self.parameters = self.parameters + 1;
        }
        proof {
            assert(self.values@.drop_last() =~= before.values@);
            assert forall|i: int|
                0 <= i < self.values@.len() && is_parameter(
                    (#[trigger] self.values@[i]).op,
                ) implies number_of(self.values@[i].op) == parameter_total(self.values@.take(i)) by {
                assert(self.values@.take(i) =~= before.values@.take(i));
                if i < before.values@.len() {
                    assert(self.values@[i] == before.values@[i]);
                } else {
                    assert(before.values@.take(i) =~= before.values@);
                }
            }
            assert forall|i: int| 0 <= i < self.nodes@.len() implies #[trigger] self.node_wf(i) by {
                if i < before.nodes@.len() {
                    assert(before.node_wf(i));
                    assert(self.values@[i].args =~= picked(self.values@, self.nodes@[i].operands@));
                } else {
                    assert(value.args =~= picked(self.values@, operands@));
                }
            }
            assert forall|i: int| 0 <= i < before.model().len() implies #[trigger] self.wires()[i]
                == before.wires()[i] by {}
        }
        Ok(Tensor { graph: self.id, node, shape, dtype, value: Ghost(value) })
    }

    /// Record an operation whose result must have the given extents and
    /// element type.
    pub fn push_node(&mut self, op: Op, operands: Vec<usize>, ty: TensorType) -> (r: Result<
        Tensor,
        Error,
    >)
        requires
            old(self).wf(),
            forall|k: int|
                0 <= k < operands@.len() ==> #[trigger] operands@[k] < old(self).model().len(),
            !(op@ is Parameter),
            !(op@ is StateInput),
            sound(op@, picked(old(self).model(), operands@), ty.dims@),
        ensures
            final(self).extends(*old(self)),
            final(self).yields(
                r,
                typed(
                    old(self).key(),
                    op@,
                    picked(old(self).model(), operands@),
                    ty.dims@,
                    ty.dtype,
                ),
            ),
            final(self).records(*old(self), r),
    {
        proof {
            reveal(typed);
        }
        let TensorType { dims, dtype } = ty;
        match elements(dims.as_slice()) {
            Err(e) => {
                return Err(e);
            },
            Ok(_) => {},
        }
        let types: Vec<DType> = self.operand_types(&operands);
        let found: DType = infer(&op, types.as_slice())?;
        if found != dtype {
            return Err(err("operation output dtype mismatch"));
        }
        self.append(op, operands, dims, dtype)
    }

    /// Record an operation; its element type follows from its operands.
    pub(crate) fn node(&mut self, op: Op, operands: Vec<usize>, dims: &[i64]) -> (r: Result<
        Tensor,
        Error,
    >)
        requires
            old(self).wf(),
            forall|k: int|
                0 <= k < operands@.len() ==> #[trigger] operands@[k] < old(self).model().len(),
            !(op@ is Parameter),
            !(op@ is StateInput),
            sound(op@, picked(old(self).model(), operands@), dims@),
        ensures
            final(self).extends(*old(self)),
            final(self).yields(
                r,
                applied(old(self).key(), op@, picked(old(self).model(), operands@), dims@),
            ),
            final(self).records(*old(self), r),
    {
        proof {
            reveal(applied);
        }
        let types: Vec<DType> = self.operand_types(&operands);
        let dtype: DType = infer(&op, types.as_slice())?;
        match elements(dims) {
            Err(e) => {
                return Err(e);
            },
            Ok(_) => {},
        }
        self.append(op, operands, vstd::slice::slice_to_vec(dims), dtype)
    }

    /// Record an operation without operands.
    pub(crate) fn node0(&mut self, op: Op, dims: &[i64]) -> (r: Result<Tensor, Error>)
        requires
            old(self).wf(),
            !(op@ is Parameter),
            !(op@ is StateInput),
            sound(op@, Seq::<Value>::empty(), dims@),
        ensures
            final(self).extends(*old(self)),
            final(self).yields(r, applied(old(self).key(), op@, Seq::<Value>::empty(), dims@)),
            final(self).records(*old(self), r),
    {
        let operands: Vec<usize> = Vec::new();
        assert(picked(self.model(), operands@) =~= Seq::<Value>::empty());
        self.node(op, operands, dims)
    }

    /// Record an operation of one operand.
    pub(crate) fn node1(&mut self, op: Op, x: &Tensor, dims: &[i64]) -> (r: Result<Tensor, Error>)
        requires
            old(self).wf(),
            old(self).owns(*x),
            !(op@ is Parameter),
            !(op@ is StateInput),
            sound(op@, seq![x@], dims@),
        ensures
            final(self).extends(*old(self)),
            final(self).yields(r, applied(x@.graph, op@, seq![x@], dims@)),
            final(self).records(*old(self), r),
    {
        let operands: Vec<usize> = vec![x.node];
        assert(picked(self.model(), operands@) =~= seq![x@]);
        self.node(op, operands, dims)
    }

    /// Record an operation of two operands.
    pub(crate) fn node2(&mut self, op: Op, x: &Tensor, y: &Tensor, dims: &[i64]) -> (r: Result<
        Tensor,
        Error,
    >)
        requires
            old(self).wf(),
            old(self).owns(*x),
            old(self).owns(*y),
            !(op@ is Parameter),
            !(op@ is StateInput),
            sound(op@, seq![x@, y@], dims@),
        ensures
            final(self).extends(*old(self)),
            final(self).yields(r, applied(x@.graph, op@, seq![x@, y@], dims@)),
            final(self).records(*old(self), r),
    {
        let operands: Vec<usize> = vec![x.node, y.node];
        assert(picked(self.model(), operands@) =~= seq![x@, y@]);
        self.node(op, operands, dims)
    }

    /// Record an operation of three operands.
    pub(crate) fn node3(
        &mut self,
        op: Op,
        x: &Tensor,
        y: &Tensor,
        z: &Tensor,
        dims: &[i64],
    ) -> (r: Result<Tensor, Error>)
        requires
            old(self).wf(),
            old(self).owns(*x),
            old(self).owns(*y),
            old(self).owns(*z),
            !(op@ is Parameter),
            !(op@ is StateInput),
            sound(op@, seq![x@, y@, z@], dims@),
        ensures
            final(self).extends(*old(self)),
            final(self).yields(r, applied(x@.graph, op@, seq![x@, y@, z@], dims@)),
            final(self).records(*old(self), r),
    {
        let operands: Vec<usize> = vec![x.node, y.node, z.node];
        assert(picked(self.model(), operands@) =~= seq![x@, y@, z@]);
        self.node(op, operands, dims)
    }

    /// The positions of a list of handles to this graph.
    fn positions(&self, operands: &[Tensor]) -> (ids: Vec<usize>)
        requires
            forall|k: int| 0 <= k < operands@.len() ==> #[trigger] self.owns(operands@[k]),
        ensures
            forall|k: int| 0 <= k < ids@.len() ==> #[trigger] ids@[k] < self.model().len(),
            picked(self.model(), ids@) == values_of(operands@),
    {
        let mut ids: Vec<usize> = Vec::new();
        let mut k: usize = 0;
        while k < operands.len()
            invariant
                k <= operands@.len(),
                ids@.len() == k,
                forall|j: int|
                    0 <= j < k ==> #[trigger] ids@[j] == operands@[j].id(),
            decreases operands@.len() - k,
        {
            ids.push(operands[k].node_id());
            k += 1;
        }
        proof {
            assert forall|j: int| 0 <= j < ids@.len() implies #[trigger] ids@[j]
                < self.model().len() by {
                assert(self.owns(operands@[j]));
            }
            assert forall|j: int| 0 <= j < ids@.len() implies #[trigger] picked(
                self.model(),
                ids@,
            )[j] == values_of(operands@)[j] by {
                assert(self.owns(operands@[j]));
            }
            assert(picked(self.model(), ids@) =~= values_of(operands@));
        }
        ids
    }

    /// Record an operation of a list of operands.
    pub(crate) fn node_list(&mut self, op: Op, operands: &[Tensor], dims: &[i64]) -> (r: Result<
        Tensor,
        Error,
    >)
        requires
            old(self).wf(),
            forall|k: int|
                0 <= k < operands@.len() ==> #[trigger] old(self).owns(operands@[k]),
            !(op@ is Parameter),
            !(op@ is StateInput),
            sound(op@, values_of(operands@), dims@),
        ensures
            final(self).extends(*old(self)),
            final(self).yields(r, applied(old(self).key(), op@, values_of(operands@), dims@)),
            final(self).records(*old(self), r),
    {
        let ids: Vec<usize> = self.positions(operands);
        self.node(op, ids, dims)
    }

    /// Record an operation of two operands whose result must have a given type.
    pub(crate) fn typed2(
        &mut self,
        op: Op,
        x: &Tensor,
        y: &Tensor,
        dims: &[i64],
        dtype: DType,
    ) -> (r: Result<Tensor, Error>)
        requires
            old(self).wf(),
            old(self).owns(*x),
            old(self).owns(*y),
            !(op@ is Parameter),
            !(op@ is StateInput),
            sound(op@, seq![x@, y@], dims@),
        ensures
            final(self).extends(*old(self)),
            final(self).yields(r, typed(x@.graph, op@, seq![x@, y@], dims@, dtype)),
            final(self).records(*old(self), r),
    {
        let operands: Vec<usize> = vec![x.node, y.node];
        assert(picked(self.model(), operands@) =~= seq![x@, y@]);
        self.push_node(op, operands, TensorType { dims: vstd::slice::slice_to_vec(dims), dtype })
    }

    /// Record an operation of a list of operands whose result must have a given
    /// type.
    pub(crate) fn typed_list(
        &mut self,
        op: Op,
        operands: &[Tensor],
        dims: &[i64],
        dtype: DType,
    ) -> (r: Result<Tensor, Error>)
        requires
            old(self).wf(),
            forall|k: int|
                0 <= k < operands@.len() ==> #[trigger] old(self).owns(operands@[k]),
            !(op@ is Parameter),
            !(op@ is StateInput),
            sound(op@, values_of(operands@), dims@),
        ensures
            final(self).extends(*old(self)),
            final(self).yields(r, typed(old(self).key(), op@, values_of(operands@), dims@, dtype)),
            final(self).records(*old(self), r),
    {
        let ids: Vec<usize> = self.positions(operands);
        self.push_node(op, ids, TensorType { dims: vstd::slice::slice_to_vec(dims), dtype })
    }

    /// Record an operation of two operands whose result must be I32.
    pub(crate) fn index2(&mut self, op: Op, x: &Tensor, y: &Tensor, dims: &[i64]) -> (r: Result<
        Tensor,
        Error,
    >)
        requires
            old(self).wf(),
            old(self).owns(*x),
            old(self).owns(*y),
            !(op@ is Parameter),
            !(op@ is StateInput),
            sound(op@, seq![x@, y@], dims@),
        ensures
            final(self).extends(*old(self)),
            final(self).yields(r, typed(x@.graph, op@, seq![x@, y@], dims@, DType::I32)),
            final(self).records(*old(self), r),
    {
        let operands: Vec<usize> = vec![x.node, y.node];
        assert(picked(self.model(), operands@) =~= seq![x@, y@]);
        self.push_node(
            op,
            operands,
            TensorType { dims: vstd::slice::slice_to_vec(dims), dtype: DType::I32 },
        )
    }

    /// Record an operation of one operand whose result must be I32.
    pub(crate) fn index1(&mut self, op: Op, x: &Tensor, dims: &[i64]) -> (r: Result<Tensor, Error>)
        requires
            old(self).wf(),
            old(self).owns(*x),
            !(op@ is Parameter),
            !(op@ is StateInput),
            sound(op@, seq![x@], dims@),
        ensures
            final(self).extends(*old(self)),
            final(self).yields(r, typed(x@.graph, op@, seq![x@], dims@, DType::I32)),
            final(self).records(*old(self), r),
    {
        let operands: Vec<usize> = vec![x.node];
        assert(picked(self.model(), operands@) =~= seq![x@]);
        self.push_node(
            op,
            operands,
            TensorType { dims: vstd::slice::slice_to_vec(dims), dtype: DType::I32 },
        )
    }

    /// Record an operation without operands whose result must be I32.
    pub(crate) fn index0(&mut self, op: Op, dims: &[i64]) -> (r: Result<Tensor, Error>)
        requires
            old(self).wf(),
            !(op@ is Parameter),
            !(op@ is StateInput),
            sound(op@, Seq::<Value>::empty(), dims@),
        ensures
            final(self).extends(*old(self)),
            final(self).yields(
                r,
                typed(old(self).key(), op@, Seq::<Value>::empty(), dims@, DType::I32),
            ),
            final(self).records(*old(self), r),
    {
        let operands: Vec<usize> = Vec::new();
        assert(picked(self.model(), operands@) =~= Seq::<Value>::empty());
        self.push_node(
            op,
            operands,
            TensorType { dims: vstd::slice::slice_to_vec(dims), dtype: DType::I32 },
        )
    }

    /// Declare an F32 program input.
    pub fn input(&mut self, dims: &[i64]) -> (r: Result<Tensor, Error>)
        requires
            old(self).wf(),
        ensures
            final(self).extends(*old(self)),
            final(self).yields(r, declared(old(self).key(), old(self).model(), dims@, DType::F32)),
            final(self).records(*old(self), r),
    {
        self.input_dtype(dims, DType::F32)
    }

    /// Declare a program input with an explicit element type.
    pub fn input_dtype(&mut self, dims: &[i64], dtype: DType) -> (r: Result<Tensor, Error>)
        requires
            old(self).wf(),
        ensures
            final(self).extends(*old(self)),
            final(self).yields(r, declared(old(self).key(), old(self).model(), dims@, dtype)),
            final(self).records(*old(self), r),
    {
        match elements(dims) {
            Err(e) => {
                return Err(e);
            },
            Ok(_) => {},
        }
        let operands: Vec<usize> = Vec::new();
        assert(picked(self.model(), operands@) =~= Seq::<Value>::empty());
        let number: usize = self.parameters;
        self.append(Op::Parameter(number), operands, vstd::slice::slice_to_vec(dims), dtype)
    }

    /// Declare the input of a state slot under a name.
    pub(crate) fn state_input(
        &mut self,
        dims: &[i64],
        dtype: DType,
        state: usize,
        path: String,
    ) -> (r: Result<Tensor, Error>)
        requires
            old(self).wf(),
        ensures
            final(self).extends(*old(self)),
            final(self).yields(
                r,
                state_declared(old(self).key(), old(self).model(), dims@, dtype, state, path@),
            ),
            final(self).records(*old(self), r),
    {
        match elements(dims) {
            Err(e) => {
                return Err(e);
            },
            Ok(_) => {},
        }
        let operands: Vec<usize> = Vec::new();
        assert(picked(self.model(), operands@) =~= Seq::<Value>::empty());
        let number: usize = self.parameters;
        self.append(
            Op::StateInput { number, state, path },
            operands,
            vstd::slice::slice_to_vec(dims),
            dtype,
        )
    }

    /// Record an operation of one operand that keeps its extents and type.
    fn relay(&mut self, op: Op, x: &Tensor) -> (r: Tensor)
        requires
            old(self).wf(),
            old(self).owns(*x),
            sound(op@, seq![x@], x@.dims),
            recordable(op@),
            !is_parameter(op@),
        ensures
            final(self).extends(*old(self)),
            final(self).owns(r),
            r.id() == old(self).model().len(),
            r@ == relayed(op@, x@),
    {
        let ty: TensorType = TensorType {
            dims: vstd::slice::slice_to_vec(x.shape()),
            dtype: x.dtype(),
        };
        let operands: Vec<usize> = vec![x.node];
        assert(picked(self.model(), operands@) =~= seq![x@]);
        match self.append(op, operands, ty.dims, ty.dtype) {
            Ok(t) => t,
            Err(_) => {
                assert(false);
                x.copy()
            },
        }
    }

    /// Record the read of a state slot.
    pub(crate) fn state_read(&mut self, current: &Tensor, state: usize) -> (r: Tensor)
        requires
            old(self).wf(),
            old(self).owns(*current),
        ensures
            final(self).extends(*old(self)),
            final(self).owns(r),
            r.id() == old(self).model().len(),
            r@ == relayed(OpModel::StateRead { state }, current@),
    {
        self.relay(Op::StateRead { state }, current)
    }

    /// Record the write of a state slot.
    pub(crate) fn state_write(&mut self, value: &Tensor, state: usize) -> (r: Tensor)
        requires
            old(self).wf(),
            old(self).owns(*value),
        ensures
            final(self).extends(*old(self)),
            final(self).owns(r),
            r.id() == old(self).model().len(),
            r@ == relayed(OpModel::StateWrite { state }, value@),
    {
        self.relay(Op::StateWrite { state }, value)
    }

    /// Declare BF16 input storage and convert it to an F32 tensor inside the
    /// program. The conversion is not a trainable input leaf.
    pub fn input_bf16_as_f32(&mut self, dims: &[i64]) -> (r: Result<Tensor, Error>)
        requires
            old(self).wf(),
        ensures
            final(self).extends(*old(self)),
            final(self).yields(
                r,
                widened(old(self).key(), old(self).model(), dims@),
            ),
            r is Ok ==> parameter_total(final(self).model()) > parameter_total(old(self).model()),
            match r {
                Ok(t) => final(self).model() == old(self).model().push(
                    declared(old(self).key(), old(self).model(), dims@, DType::BF16)->Is_0,
                ).push(t@),
                Err(_) => *final(self) == *old(self),
            },
    {
        let storage: Tensor = self.input_dtype(dims, DType::BF16)?;
        let ghost declared = *self;
        assert(declared.model().drop_last() =~= old(self).model());
        let result: Result<Tensor, Error> = self.node1(Op::Bf16ToFloat, &storage, dims);
        proof {
            reveal(applied);
            parameters_grow(*self, declared);
        }
        result
    }

    /// Declare a scalar I32 program input.
    pub fn input_i32_scalar(&mut self) -> (r: Result<Tensor, Error>)
        requires
            old(self).wf(),
        ensures
            final(self).extends(*old(self)),
            final(self).yields(
                r,
                declared(old(self).key(), old(self).model(), Seq::<i64>::empty(), DType::I32),
            ),
            final(self).records(*old(self), r),
    {
        let scalar: Vec<i64> = Vec::new();
        self.input_dtype(scalar.as_slice(), DType::I32)
    }

    /// Declare an I32 program input.
    pub fn input_i32(&mut self, dims: &[i64]) -> (r: Result<Tensor, Error>)
        requires
            old(self).wf(),
        ensures
            final(self).extends(*old(self)),
            final(self).yields(r, declared(old(self).key(), old(self).model(), dims@, DType::I32)),
            final(self).records(*old(self), r),
    {
        self.input_dtype(dims, DType::I32)
    }

    /// An F32 constant with the given extents, in row-major order.
    pub fn constant(&mut self, dims: &[i64], values: &[Scalar]) -> (r: Result<Tensor, Error>)
        requires
            old(self).wf(),
        ensures
            final(self).extends(*old(self)),
            final(self).yields(r, constant(old(self).key(), dims@, values@)),
            final(self).records(*old(self), r),
    {
        let count: usize = match elements(dims) {
            Err(e) => {
                return Err(e);
            },
            Ok(count) => count,
        };
        if count != values.len() {
            return Err(err("constant shape/data mismatch"));
        }
        self.node0(Op::ConstantF32(vstd::slice::slice_to_vec(values)), dims)
    }

    /// A rank-zero F32 constant.
    pub fn scalar(&mut self, value: Scalar) -> (r: Result<Tensor, Error>)
        requires
            old(self).wf(),
        ensures
            final(self).extends(*old(self)),
            final(self).yields(r, scalar(old(self).key(), value)),
            final(self).records(*old(self), r),
    {
        let dims: Vec<i64> = Vec::new();
        let values: Vec<Scalar> = vec![value];
        assert(values@ =~= seq![value]);
        self.constant(dims.as_slice(), values.as_slice())
    }

    /// An I32 constant with the given extents, in row-major order.
    pub fn constant_i32(&mut self, dims: &[i64], values: &[i32]) -> (r: Result<Tensor, Error>)
        requires
            old(self).wf(),
        ensures
            final(self).extends(*old(self)),
            final(self).yields(r, constant_i32(old(self).key(), dims@, values@)),
            final(self).records(*old(self), r),
    {
        let count: usize = match elements(dims) {
            Err(e) => {
                return Err(e);
            },
            Ok(count) => count,
        };
        if count != values.len() {
            return Err(err("index constant shape/data mismatch"));
        }
        self.index0(Op::ConstantI32(vstd::slice::slice_to_vec(values)), dims)
    }

    /// A rank-zero I32 constant.
    pub fn scalar_i32(&mut self, value: i32) -> (r: Result<Tensor, Error>)
        requires
            old(self).wf(),
        ensures
            final(self).extends(*old(self)),
            final(self).yields(r, scalar_i32(old(self).key(), value)),
            final(self).records(*old(self), r),
    {
        let dims: Vec<i64> = Vec::new();
        let values: Vec<i32> = vec![value];
        assert(values@ =~= seq![value]);
        self.constant_i32(dims.as_slice(), values.as_slice())
    }

    /// I32 coordinates along one axis: each element holds its index on that
    /// axis, replicated over the other dimensions.
    pub fn iota_i32(&mut self, dims: &[i64], axis: usize) -> (r: Result<Tensor, Error>)
        requires
            old(self).wf(),
        ensures
            final(self).extends(*old(self)),
            final(self).yields(r, iota(old(self).key(), dims@, axis)),
            final(self).records(*old(self), r),
    {
        match elements(dims) {
            Err(e) => {
                return Err(e);
            },
            Ok(_) => {},
        }
        if axis >= dims.len() || dims[axis] > 0x8000_0000 {
            return Err(err("iota requires a valid axis with I32-representable coordinates"));
        }
        self.index0(Op::Iota { axis }, dims)
    }
}

/// The values that a list of handles stands for.
pub open spec fn values_of(tensors: Seq<Tensor>) -> Seq<Value> {
    Seq::new(tensors.len(), |k: int| tensors[k]@)
}

/// A program input, numbered after the parameters already declared.
pub open spec fn declared(
    graph: u64,
    values: Seq<Value>,
    dims: Seq<i64>,
    dtype: DType,
) -> Expr {
    recorded(
        graph,
        OpModel::Parameter(parameter_total(values) as usize),
        Seq::empty(),
        dims,
        dtype,
    )
}

/// A BF16 program input, read as F32.
pub open spec fn widened(graph: u64, model: Seq<Value>, dims: Seq<i64>) -> Expr {
    match declared(graph, model, dims, DType::BF16) {
        Expr::Fails(e) => Expr::Fails(e),
        Expr::Is(x) => applied(x.graph, OpModel::Bf16ToFloat, seq![x], dims),
    }
}

/// The input of a state slot, numbered after the parameters already declared.
pub open spec fn state_declared(
    graph: u64,
    values: Seq<Value>,
    dims: Seq<i64>,
    dtype: DType,
    state: usize,
    path: Seq<char>,
) -> Expr {
    recorded(
        graph,
        OpModel::StateInput { number: parameter_total(values) as usize, state, path },
        Seq::empty(),
        dims,
        dtype,
    )
}

/// A value passed through an operation that keeps its extents and type.
pub open spec fn relayed(op: OpModel, x: Value) -> Value {
    Value { graph: x.graph, op, args: seq![x], dims: x.dims, dtype: x.dtype }
}

/// An F32 constant with the given extents.
pub open spec fn constant(graph: u64, dims: Seq<i64>, values: Seq<Scalar>) -> Expr {
    match volume(dims) {
        None => Expr::Fails(bad_shape()),
        Some(count) => if count != values.len() {
            Expr::invalid("constant shape/data mismatch")
        } else {
            applied(graph, OpModel::ConstantF32(values), Seq::empty(), dims)
        },
    }
}

/// A rank-zero F32 constant.
pub open spec fn scalar(graph: u64, value: Scalar) -> Expr {
    constant(graph, Seq::empty(), seq![value])
}

/// An I32 constant with the given extents.
pub open spec fn constant_i32(graph: u64, dims: Seq<i64>, values: Seq<i32>) -> Expr {
    match volume(dims) {
        None => Expr::Fails(bad_shape()),
        Some(count) => if count != values.len() {
            Expr::invalid("index constant shape/data mismatch")
        } else {
            typed(graph, OpModel::ConstantI32(values), Seq::empty(), dims, DType::I32)
        },
    }
}

/// A rank-zero I32 constant.
pub open spec fn scalar_i32(graph: u64, value: i32) -> Expr {
    constant_i32(graph, Seq::empty(), seq![value])
}

/// I32 coordinates along one axis.
pub open spec fn iota(graph: u64, dims: Seq<i64>, axis: usize) -> Expr {
    if volume(dims) is None {
        Expr::Fails(bad_shape())
    } else if axis >= dims.len() || dims[axis as int] > 0x8000_0000 {
        Expr::invalid("iota requires a valid axis with I32-representable coordinates")
    } else {
        typed(graph, OpModel::Iota { axis }, Seq::empty(), dims, DType::I32)
    }
}

} // verus!
