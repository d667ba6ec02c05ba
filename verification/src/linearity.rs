//! Gradients are linear in the cotangent they start from.
use crate::autodiff::{
    added, exprs_of, grad_refusal, leaves_refusal, lemma_stepped_shaped, lemma_swept_shaped,
    lemma_well_wired, obstacle, on_path, passes, path_refusal, requested, reverse_gradients, seeded,
    shaped, stepped, swept, well_wired, Known,
};
use crate::convolution::{conv_shape, transposed_shape};
use crate::corners::{lemma_regroup, lemma_split};
use crate::dtype::{is_floating, DType};
use crate::elements::{copied, origin, within, Element};
use crate::error::Error;
use crate::gradients::{
    abs_gradient, adjoint_options, attention_gradients, attention_weights, binary_gradients,
    border_gradient, concatenate_gradients, contributions_have_operand_extents, conv_gradients,
    conv_oihw_gradients, conv_transpose_gradients, data_gradient, diagonal_gradients,
    differentiable, dynamic_slice_gradient, dynamic_update_gradients, extremum_gradients,
    fits_operand, inverse_of, maximum_gradient, pad_gradients, pad_interior, pool_rest,
    reduce_gradient, repeated_axes, rule, score_gradient, shortfall, single_channels, spread,
    sum_pool_gradient, tally, transposing, unary_gradient, windows_gradient, Parts,
    TWO_OVER_ROOT_PI,
};
use crate::graph::{applied, scalar, typed, types_of, values_of, Expr, Graph, Tensor, Value};
use crate::indexing::{collect, narrowing};
use crate::matmul::{batch_of, broadcast_shape, lhs_matrix, matrix_of, rhs_matrix};
use crate::op::{
    Binary, Conv2dOptions, ConvTranspose2dOptions, OpModel, Pool2dOptions, Reduction, Scalar,
    SliceAxis, Unary, Widths, F32_HALF, F32_NAN, F32_NEG_HALF, F32_ONE, F32_ZERO,
};
use crate::overlaps::{exact_element, reads_exactly, selected_element};
use crate::shape::{chosen, collapsed, gathered, kept, span};
use crate::shape_ops::swapped;
use crate::sound::{axis_total, hwio, slice_dims, taken};
use vstd::prelude::*;

verus! {

/// Whether an operation is linear in one operand, the others held fixed.
pub open spec fn linear_in(op: OpModel, operand: int) -> bool {
    match op {
        OpModel::Binary(b) => (b == Binary::Mul && (operand == 0 || operand == 1)) || (b
            == Binary::Div && operand == 0),
        OpModel::Unary(u) => u == Unary::Neg && operand == 0,
        OpModel::Reduce { kind, .. } => kind == Reduction::Sum && operand == 0,
        OpModel::Convert { dtype } => is_floating(dtype) && operand == 0,
        OpModel::Reshape
        | OpModel::OptimizationBarrier
        | OpModel::Slice(..)
        | OpModel::SliceGradient(..)
        | OpModel::Reverse { .. }
        | OpModel::Transpose { .. }
        | OpModel::Broadcast { .. }
        | OpModel::Cumsum { .. }
        | OpModel::Take { .. }
        | OpModel::TakeAlongAxis { .. }
        | OpModel::GatherGradient { .. }
        | OpModel::DynamicSlice => operand == 0,
        OpModel::Matmul { .. }
        | OpModel::Conv2d(..)
        | OpModel::Conv2dInputGradient(..)
        | OpModel::Conv2dKernelGradient(..)
        | OpModel::ConvTranspose2d(..) => operand == 0 || operand == 1,
        _ => false,
    }
}

/// Whether an operation is linear in several operands together, of which this
/// is one.
pub open spec fn linear_with(op: OpModel, operand: int) -> bool {
    match op {
        OpModel::Binary(b) => (b == Binary::Add || b == Binary::Sub) && (operand == 0 || operand
            == 1),
        OpModel::Select => operand == 1 || operand == 2,
        OpModel::DynamicUpdateSlice => operand == 0 || operand == 1,
        _ => false,
    }
}

/// Whether three values have one graph, one shape and one element type.
pub open spec fn similar(z: Value, x: Value, y: Value) -> bool {
    &&& z.graph == x.graph && z.graph == y.graph
    &&& z.dims == x.dims && z.dims == y.dims
    &&& z.dtype == x.dtype && z.dtype == y.dtype
}

/// A reading of elements as numbers, and a fixed linear combination of two
/// numbers.
#[verifier::reject_recursive_types(A)]
pub ghost struct Mixture<A> {
    pub read: spec_fn(Element) -> A,
    pub mix: spec_fn(A, A) -> A,
}

impl<A> Mixture<A> {
    /// Whether one element of a value is the mixture of the same element of two
    /// others.
    pub open spec fn element(self, z: Value, x: Value, y: Value, index: Seq<int>) -> bool {
        (self.read)(origin(z, index)) == (self.mix)(
            (self.read)(origin(x, index)),
            (self.read)(origin(y, index)),
        )
    }

    /// Whether every element of a value is the mixture of those of two others.
    #[verifier::opaque]
    pub open spec fn mixes(self, z: Value, x: Value, y: Value) -> bool {
        forall|index: Seq<int>| within(z.dims, index) ==> #[trigger] self.element(z, x, y, index)
    }

    /// Whether an expression fails as two others do, or is their mixture.
    pub open spec fn relates(self, z: Expr, x: Expr, y: Expr) -> bool {
        match (z, x, y) {
            (Expr::Is(a), Expr::Is(b), Expr::Is(c)) => similar(a, b, c) && self.mixes(a, b, c),
            (Expr::Fails(a), Expr::Fails(b), Expr::Fails(c)) => a == b && a == c,
            _ => false,
        }
    }

    /// Whether an operation that is linear in one operand takes a mixture there
    /// to the mixture of its results.
    pub open spec fn keeps_one(
        self,
        graph: u64,
        op: OpModel,
        args: Seq<Value>,
        k: int,
        dims: Seq<i64>,
        z: Value,
        x: Value,
        y: Value,
    ) -> bool {
        linear_in(op, k) && 0 <= k < args.len() && similar(z, x, y) && self.mixes(z, x, y)
            && applied(graph, op, args.update(k, z), dims) is Is ==> self.mixes(
            applied(graph, op, args.update(k, z), dims)->Is_0,
            applied(graph, op, args.update(k, x), dims)->Is_0,
            applied(graph, op, args.update(k, y), dims)->Is_0,
        )
    }

    /// Whether three lists of operands are mixtures where an operation is
    /// linear in them together, and the same elsewhere.
    pub open spec fn operands(
        self,
        op: OpModel,
        z: Seq<Value>,
        x: Seq<Value>,
        y: Seq<Value>,
    ) -> bool {
        &&& z.len() == x.len() && z.len() == y.len()
        &&& exists|k: int| 0 <= k < z.len() && linear_with(op, k)
        &&& forall|k: int|
            0 <= k < z.len() ==> if linear_with(op, k) {
                similar(#[trigger] z[k], x[k], y[k]) && self.mixes(z[k], x[k], y[k])
            } else {
                z[k] == x[k] && z[k] == y[k]
            }
    }

    /// Whether an operation that is linear in several operands together takes
    /// mixtures there to the mixture of its results.
    pub open spec fn keeps_all(
        self,
        graph: u64,
        op: OpModel,
        dims: Seq<i64>,
        z: Seq<Value>,
        x: Seq<Value>,
        y: Seq<Value>,
    ) -> bool {
        self.operands(op, z, x, y) && applied(graph, op, z, dims) is Is ==> self.mixes(
            applied(graph, op, z, dims)->Is_0,
            applied(graph, op, x, dims)->Is_0,
            applied(graph, op, y, dims)->Is_0,
        )
    }

    /// Whether a constant, spread over any extents, is its own mixture.
    pub open spec fn fixes(self, graph: u64, bits: u32, dims: Seq<i64>) -> bool {
        scalar(graph, Scalar::Bits(bits)).broadcast_to(dims) matches Expr::Is(c) ==> self.mixes(
            c,
            c,
            c,
        )
    }

    /// Whether the arithmetic that a reading follows is linear: operations keep
    /// mixtures in the operands that they are linear in, and zero is its own
    /// mixture, as NaN is.
    pub open spec fn linear(self) -> bool {
        &&& forall|
            graph: u64,
            op: OpModel,
            args: Seq<Value>,
            k: int,
            dims: Seq<i64>,
            z: Value,
            x: Value,
            y: Value,
        | #[trigger]
            self.keeps_one(graph, op, args, k, dims, z, x, y)
        &&& forall|
            graph: u64,
            op: OpModel,
            dims: Seq<i64>,
            z: Seq<Value>,
            x: Seq<Value>,
            y: Seq<Value>,
        | #[trigger]
            self.keeps_all(graph, op, dims, z, x, y)
        &&& forall|graph: u64, dims: Seq<i64>| #[trigger] self.fixes(graph, F32_ZERO, dims)
        &&& forall|graph: u64, dims: Seq<i64>| #[trigger] self.fixes(graph, F32_NAN, dims)
    }

    /// Whether contributions are mixtures of two others, operand by operand.
    pub open spec fn parts(self, z: Parts, x: Parts, y: Parts) -> bool {
        &&& z.len() == x.len() && z.len() == y.len()
        &&& forall|k: int|
            0 <= k < z.len() ==> (#[trigger] z[k]).0 == x[k].0 && z[k].0 == y[k].0
                && self.relates(z[k].1, x[k].1, y[k].1)
    }

    /// Whether the gradients known so far are mixtures of two others.
    pub open spec fn known(self, z: Known, x: Known, y: Known) -> bool {
        &&& z.len() == x.len() && z.len() == y.len()
        &&& forall|k: int|
            0 <= k < z.len() ==> match (#[trigger] z[k], x[k], y[k]) {
                (None, None, None) => true,
                (Some(a), Some(b), Some(c)) => similar(a, b, c) && self.mixes(a, b, c),
                _ => false,
            }
    }

    /// Whether the gradients reached are mixtures of two others, or refused as
    /// they are.
    pub open spec fn outcomes(
        self,
        z: Result<Known, Error>,
        x: Result<Known, Error>,
        y: Result<Known, Error>,
    ) -> bool {
        match (z, x, y) {
            (Ok(a), Ok(b), Ok(c)) => self.known(a, b, c),
            (Err(a), Err(b), Err(c)) => a == b && a == c,
            _ => false,
        }
    }

    /// Whether the requested gradients are mixtures of two others, or refused
    /// as they are.
    pub open spec fn gradients(
        self,
        z: Result<Seq<Value>, Error>,
        x: Result<Seq<Value>, Error>,
        y: Result<Seq<Value>, Error>,
    ) -> bool {
        match (z, x, y) {
            (Ok(a), Ok(b), Ok(c)) => {
                &&& a.len() == b.len() && a.len() == c.len()
                &&& forall|k: int|
                    0 <= k < a.len() ==> similar(#[trigger] a[k], b[k], c[k]) && self.mixes(
                        a[k],
                        b[k],
                        c[k],
                    )
            },
            (Err(a), Err(b), Err(c)) => a == b && a == c,
            _ => false,
        }
    }
}

proof fn lemma_one<A>(
    m: Mixture<A>,
    graph: u64,
    op: OpModel,
    args: Seq<Value>,
    k: int,
    dims: Seq<i64>,
    z: Value,
    x: Value,
    y: Value,
)
    requires
        m.linear(),
        linear_in(op, k),
        0 <= k < args.len(),
        similar(z, x, y),
        m.mixes(z, x, y),
    ensures
        m.relates(
            applied(graph, op, args.update(k, z), dims),
            applied(graph, op, args.update(k, x), dims),
            applied(graph, op, args.update(k, y), dims),
        ),
{
    assert(m.keeps_one(graph, op, args, k, dims, z, x, y));
    assert(types_of(args.update(k, z)) =~= types_of(args.update(k, x)));
    assert(types_of(args.update(k, z)) =~= types_of(args.update(k, y)));
    reveal(applied);
}

proof fn lemma_all<A>(
    m: Mixture<A>,
    graph: u64,
    op: OpModel,
    dims: Seq<i64>,
    z: Seq<Value>,
    x: Seq<Value>,
    y: Seq<Value>,
)
    requires
        m.linear(),
        m.operands(op, z, x, y),
    ensures
        m.relates(
            applied(graph, op, z, dims),
            applied(graph, op, x, dims),
            applied(graph, op, y, dims),
        ),
{
    assert(m.keeps_all(graph, op, dims, z, x, y));
    assert(types_of(z) =~= types_of(x)) by {
        assert forall|k: int| 0 <= k < z.len() implies #[trigger] types_of(z)[k] == types_of(
            x,
        )[k] by {
            assert(similar(z[k], x[k], y[k]) || z[k] == x[k]);
        }
    }
    assert(types_of(z) =~= types_of(y)) by {
        assert forall|k: int| 0 <= k < z.len() implies #[trigger] types_of(z)[k] == types_of(
            y,
        )[k] by {
            assert(similar(z[k], x[k], y[k]) || z[k] == y[k]);
        }
    }
    reveal(applied);
}

proof fn lemma_only<A>(
    m: Mixture<A>,
    op: OpModel,
    dims: Seq<i64>,
    z: Value,
    x: Value,
    y: Value,
)
    requires
        m.linear(),
        linear_in(op, 0),
        similar(z, x, y),
        m.mixes(z, x, y),
    ensures
        m.relates(
            applied(z.graph, op, seq![z], dims),
            applied(x.graph, op, seq![x], dims),
            applied(y.graph, op, seq![y], dims),
        ),
{
    let args = seq![z];
    lemma_one(m, z.graph, op, args, 0, dims, z, x, y);
    assert(args.update(0, z) =~= seq![z]);
    assert(args.update(0, x) =~= seq![x]);
    assert(args.update(0, y) =~= seq![y]);
}

proof fn lemma_left<A>(
    m: Mixture<A>,
    graph: u64,
    op: OpModel,
    dims: Seq<i64>,
    z: Value,
    x: Value,
    y: Value,
    b: Value,
)
    requires
        m.linear(),
        linear_in(op, 0),
        similar(z, x, y),
        m.mixes(z, x, y),
    ensures
        m.relates(
            applied(graph, op, seq![z, b], dims),
            applied(graph, op, seq![x, b], dims),
            applied(graph, op, seq![y, b], dims),
        ),
{
    let args = seq![z, b];
    lemma_one(m, graph, op, args, 0, dims, z, x, y);
    assert(args.update(0, z) =~= seq![z, b]);
    assert(args.update(0, x) =~= seq![x, b]);
    assert(args.update(0, y) =~= seq![y, b]);
}

proof fn lemma_right<A>(
    m: Mixture<A>,
    graph: u64,
    op: OpModel,
    dims: Seq<i64>,
    a: Value,
    z: Value,
    x: Value,
    y: Value,
)
    requires
        m.linear(),
        linear_in(op, 1),
        similar(z, x, y),
        m.mixes(z, x, y),
    ensures
        m.relates(
            applied(graph, op, seq![a, z], dims),
            applied(graph, op, seq![a, x], dims),
            applied(graph, op, seq![a, y], dims),
        ),
{
    let args = seq![a, z];
    lemma_one(m, graph, op, args, 1, dims, z, x, y);
    assert(args.update(1, z) =~= seq![a, z]);
    assert(args.update(1, x) =~= seq![a, x]);
    assert(args.update(1, y) =~= seq![a, y]);
}

/// Operations of declared element type relate as those of inferred type do.
proof fn lemma_typed<A>(
    m: Mixture<A>,
    graph: u64,
    op: OpModel,
    dims: Seq<i64>,
    z: Seq<Value>,
    x: Seq<Value>,
    y: Seq<Value>,
    dtype: DType,
)
    requires
        m.relates(
            applied(graph, op, z, dims),
            applied(graph, op, x, dims),
            applied(graph, op, y, dims),
        ),
        types_of(z) == types_of(x),
        types_of(z) == types_of(y),
    ensures
        m.relates(
            typed(graph, op, z, dims, dtype),
            typed(graph, op, x, dims, dtype),
            typed(graph, op, y, dims, dtype),
        ),
{
    reveal(applied);
    reveal(typed);
}

/// A constant zero or NaN relates to itself.
proof fn lemma_constant<A>(m: Mixture<A>, graph: u64, bits: u32, dims: Seq<i64>)
    requires
        m.linear(),
        bits == F32_ZERO || bits == F32_NAN,
    ensures
        ({
            let c = scalar(graph, Scalar::Bits(bits)).broadcast_to(dims);
            m.relates(c, c, c)
        }),
{
    assert(m.fixes(graph, F32_ZERO, dims));
    assert(m.fixes(graph, F32_NAN, dims));
}

proof fn lemma_filled<A>(m: Mixture<A>, x: Expr, bits: u32)
    requires
        m.linear(),
        bits == F32_ZERO || bits == F32_NAN,
    ensures
        m.relates(
            x.filled(Scalar::Bits(bits)),
            x.filled(Scalar::Bits(bits)),
            x.filled(Scalar::Bits(bits)),
        ),
{
    reveal(Expr::filled);
    match x {
        Expr::Is(v) => lemma_constant(m, v.graph, bits, v.dims),
        _ => {},
    }
}

proof fn lemma_neg<A>(m: Mixture<A>, z: Expr, x: Expr, y: Expr)
    requires
        m.linear(),
        m.relates(z, x, y),
    ensures
        m.relates(z.neg(), x.neg(), y.neg()),
{
    match (z, x, y) {
        (Expr::Is(a), Expr::Is(b), Expr::Is(c)) => lemma_only(
            m,
            OpModel::Unary(Unary::Neg),
            a.dims,
            a,
            b,
            c,
        ),
        _ => {},
    }
}

/// A product or quotient with a common right operand.
proof fn lemma_times<A>(m: Mixture<A>, op: Binary, z: Expr, x: Expr, y: Expr, other: Expr)
    requires
        m.linear(),
        op == Binary::Mul || op == Binary::Div,
        m.relates(z, x, y),
    ensures
        m.relates(z.binary(other, op), x.binary(other, op), y.binary(other, op)),
{
    match (z, x, y, other) {
        (Expr::Is(a), Expr::Is(b), Expr::Is(c), Expr::Is(o)) => lemma_left(
            m,
            a.graph,
            OpModel::Binary(op),
            a.dims,
            a,
            b,
            c,
            o,
        ),
        _ => {},
    }
}

/// A product with a common left operand.
proof fn lemma_scaled<A>(m: Mixture<A>, other: Expr, z: Expr, x: Expr, y: Expr)
    requires
        m.linear(),
        m.relates(z, x, y),
    ensures
        m.relates(other.mul(z), other.mul(x), other.mul(y)),
{
    match (z, x, y, other) {
        (Expr::Is(a), Expr::Is(b), Expr::Is(c), Expr::Is(o)) => lemma_right(
            m,
            o.graph,
            OpModel::Binary(Binary::Mul),
            o.dims,
            o,
            a,
            b,
            c,
        ),
        _ => {},
    }
}

/// A sum or difference of mixtures.
proof fn lemma_plus<A>(
    m: Mixture<A>,
    op: Binary,
    z: Expr,
    x: Expr,
    y: Expr,
    u: Expr,
    v: Expr,
    w: Expr,
)
    requires
        m.linear(),
        op == Binary::Add || op == Binary::Sub,
        m.relates(z, x, y),
        m.relates(u, v, w),
    ensures
        m.relates(z.binary(u, op), x.binary(v, op), y.binary(w, op)),
{
    match (z, x, y) {
        (Expr::Is(a), Expr::Is(b), Expr::Is(c)) => match (u, v, w) {
            (Expr::Is(p), Expr::Is(q), Expr::Is(r)) => {
                let o = OpModel::Binary(op);
                assert(linear_with(o, 0));
                assert(m.operands(o, seq![a, p], seq![b, q], seq![c, r]));
                lemma_all(m, a.graph, o, a.dims, seq![a, p], seq![b, q], seq![c, r]);
            },
            _ => {},
        },
        _ => {},
    }
}

proof fn lemma_mul_scalar<A>(m: Mixture<A>, z: Expr, x: Expr, y: Expr, value: Scalar)
    requires
        m.linear(),
        m.relates(z, x, y),
    ensures
        m.relates(z.mul_scalar(value), x.mul_scalar(value), y.mul_scalar(value)),
{
    reveal(Expr::mul_scalar);
    reveal(Expr::filled);
    lemma_times(m, Binary::Mul, z, x, y, z.filled(value));
}

/// A choice between mixtures.
proof fn lemma_select<A>(
    m: Mixture<A>,
    mask: Expr,
    z: Expr,
    x: Expr,
    y: Expr,
    u: Expr,
    v: Expr,
    w: Expr,
)
    requires
        m.linear(),
        m.relates(z, x, y),
        m.relates(u, v, w),
    ensures
        m.relates(mask.select(z, u), mask.select(x, v), mask.select(y, w)),
{
    match (mask, z, x, y) {
        (Expr::Is(k), Expr::Is(a), Expr::Is(b), Expr::Is(c)) => match (u, v, w) {
            (Expr::Is(p), Expr::Is(q), Expr::Is(r)) => {
                assert(linear_with(OpModel::Select, 1));
                assert(m.operands(OpModel::Select, seq![k, a, p], seq![k, b, q], seq![k, c, r]));
                lemma_all(
                    m,
                    k.graph,
                    OpModel::Select,
                    k.dims,
                    seq![k, a, p],
                    seq![k, b, q],
                    seq![k, c, r],
                );
            },
            _ => {},
        },
        _ => {},
    }
}

proof fn lemma_reshape<A>(m: Mixture<A>, z: Expr, x: Expr, y: Expr, dims: Seq<i64>)
    requires
        m.linear(),
        m.relates(z, x, y),
    ensures
        m.relates(z.reshape(dims), x.reshape(dims), y.reshape(dims)),
{
    match (z, x, y) {
        (Expr::Is(a), Expr::Is(b), Expr::Is(c)) => lemma_only(m, OpModel::Reshape, dims, a, b, c),
        _ => {},
    }
}

proof fn lemma_broadcast_to<A>(m: Mixture<A>, z: Expr, x: Expr, y: Expr, dims: Seq<i64>)
    requires
        m.linear(),
        m.relates(z, x, y),
    ensures
        m.relates(z.broadcast_to(dims), x.broadcast_to(dims), y.broadcast_to(dims)),
{
    match (z, x, y) {
        (Expr::Is(a), Expr::Is(b), Expr::Is(c)) => {
            let axes = span((dims.len() - a.dims.len()) as nat, dims.len());
            lemma_only(m, OpModel::Broadcast { axes }, dims, a, b, c);
        },
        _ => {},
    }
}

proof fn lemma_transpose<A>(m: Mixture<A>, z: Expr, x: Expr, y: Expr, permutation: Seq<usize>)
    requires
        m.linear(),
        m.relates(z, x, y),
    ensures
        m.relates(z.transpose(permutation), x.transpose(permutation), y.transpose(permutation)),
{
    match (z, x, y) {
        (Expr::Is(a), Expr::Is(b), Expr::Is(c)) => lemma_only(
            m,
            OpModel::Transpose { permutation },
            gathered(a.dims, permutation),
            a,
            b,
            c,
        ),
        _ => {},
    }
}

proof fn lemma_swap_axes<A>(
    m: Mixture<A>,
    z: Expr,
    x: Expr,
    y: Expr,
    first: usize,
    second: usize,
)
    requires
        m.linear(),
        m.relates(z, x, y),
    ensures
        m.relates(z.swap_axes(first, second), x.swap_axes(first, second), y.swap_axes(first, second)),
{
    match (z, x, y) {
        (Expr::Is(a), Expr::Is(b), Expr::Is(c)) => lemma_transpose(
            m,
            z,
            x,
            y,
            swapped(a.dims.len(), first, second),
        ),
        _ => {},
    }
}

proof fn lemma_flip<A>(m: Mixture<A>, z: Expr, x: Expr, y: Expr, axes: Seq<usize>)
    requires
        m.linear(),
        m.relates(z, x, y),
    ensures
        m.relates(z.flip(axes), x.flip(axes), y.flip(axes)),
{
    match (z, x, y) {
        (Expr::Is(a), Expr::Is(b), Expr::Is(c)) => lemma_only(
            m,
            OpModel::Reverse { axes: chosen(a.dims.len(), axes) },
            a.dims,
            a,
            b,
            c,
        ),
        _ => {},
    }
}

proof fn lemma_cumsum<A>(m: Mixture<A>, z: Expr, x: Expr, y: Expr, axis: usize)
    requires
        m.linear(),
        m.relates(z, x, y),
    ensures
        m.relates(z.cumsum(axis), x.cumsum(axis), y.cumsum(axis)),
{
    match (z, x, y) {
        (Expr::Is(a), Expr::Is(b), Expr::Is(c)) => lemma_only(
            m,
            OpModel::Cumsum { axis },
            a.dims,
            a,
            b,
            c,
        ),
        _ => {},
    }
}

proof fn lemma_sum<A>(m: Mixture<A>, z: Expr, x: Expr, y: Expr, axes: Seq<usize>, keep: bool)
    requires
        m.linear(),
        m.relates(z, x, y),
    ensures
        m.relates(z.sum(axes, keep), x.sum(axes, keep), y.sum(axes, keep)),
{
    reveal(Expr::reduce);
    match (z, x, y) {
        (Expr::Is(a), Expr::Is(b), Expr::Is(c)) => {
            let op = OpModel::Reduce {
                kind: Reduction::Sum,
                axes: chosen(a.dims.len(), axes),
            };
            let dims = kept(a.dims, axes);
            lemma_only(m, op, dims, a, b, c);
            lemma_reshape(
                m,
                applied(a.graph, op, seq![a], dims),
                applied(b.graph, op, seq![b], dims),
                applied(c.graph, op, seq![c], dims),
                collapsed(a.dims, axes),
            );
        },
        _ => {},
    }
}

proof fn lemma_sliced<A>(m: Mixture<A>, z: Expr, x: Expr, y: Expr, axes: Seq<SliceAxis>)
    requires
        m.linear(),
        m.relates(z, x, y),
    ensures
        m.relates(z.sliced(axes), x.sliced(axes), y.sliced(axes)),
{
    match (z, x, y) {
        (Expr::Is(a), Expr::Is(b), Expr::Is(c)) => lemma_only(
            m,
            OpModel::Slice(axes),
            slice_dims(axes),
            a,
            b,
            c,
        ),
        _ => {},
    }
}

proof fn lemma_narrow<A>(
    m: Mixture<A>,
    z: Expr,
    x: Expr,
    y: Expr,
    axis: usize,
    start: i64,
    length: i64,
)
    requires
        m.linear(),
        m.relates(z, x, y),
    ensures
        m.relates(
            z.narrow(axis, start, length),
            x.narrow(axis, start, length),
            y.narrow(axis, start, length),
        ),
{
    reveal(Expr::narrow);
    match (z, x, y) {
        (Expr::Is(a), Expr::Is(b), Expr::Is(c)) => lemma_sliced(
            m,
            z,
            x,
            y,
            narrowing(a.dims, axis, start, length),
        ),
        _ => {},
    }
}

/// A matrix product with a common right operand.
#[verifier::spinoff_prover]
proof fn lemma_matmul_left<A>(m: Mixture<A>, z: Expr, x: Expr, y: Expr, other: Expr)
    requires
        m.linear(),
        m.relates(z, x, y),
    ensures
        m.relates(z.matmul(other), x.matmul(other), y.matmul(other)),
{
    reveal(Expr::matmul);
    match (z, x, y, other) {
        (Expr::Is(p), Expr::Is(q), Expr::Is(r), Expr::Is(o)) => {
            let row = p.dims.len() == 1;
            let column = o.dims.len() == 1;
            let a = lhs_matrix(p.dims);
            let b = rhs_matrix(o.dims);
            let batch = broadcast_shape(
                batch_of(a),
                batch_of(b),
            );
            lemma_reshape(m, z, x, y, a);
            let (lz, lx, ly) = if row {
                (z.reshape(a), x.reshape(a), y.reshape(a))
            } else {
                (z, x, y)
            };
            let right = if column {
                other.reshape(b)
            } else {
                other
            };
            let wide = batch + matrix_of(a);
            lemma_broadcast_to(m, lz, lx, ly, wide);
            let (bz, bx, by) = (
                lz.broadcast_to(wide).given(right),
                lx.broadcast_to(wide).given(right),
                ly.broadcast_to(wide).given(right),
            );
            let factor = right.broadcast_to(batch + matrix_of(b));
            let dims = batch + seq![a[a.len() - 2], b[b.len() - 1]];
            match (bz, bx, by, factor) {
                (Expr::Is(u), Expr::Is(v), Expr::Is(w), Expr::Is(f)) => {
                    lemma_left(
                        m,
                        u.graph,
                        OpModel::Matmul { batch_rank: (dims.len() - 2) as usize },
                        dims,
                        u,
                        v,
                        w,
                        f,
                    );
                },
                _ => {},
            }
            let (pz, px, py) = (
                bz.batched_product(factor, dims).given(bz).given(lz),
                bx.batched_product(factor, dims).given(bx).given(lx),
                by.batched_product(factor, dims).given(by).given(ly),
            );
            assert(m.relates(pz, px, py));
            let rows: Seq<i64> = if row {
                Seq::empty()
            } else {
                seq![a[a.len() - 2]]
            };
            let columns: Seq<i64> = if column {
                Seq::empty()
            } else {
                seq![b[b.len() - 1]]
            };
            lemma_reshape(m, pz, px, py, batch + rows + columns);
        },
        _ => {},
    }
}

/// A matrix product with a common left operand.
#[verifier::spinoff_prover]
proof fn lemma_matmul_right<A>(m: Mixture<A>, other: Expr, z: Expr, x: Expr, y: Expr)
    requires
        m.linear(),
        m.relates(z, x, y),
    ensures
        m.relates(other.matmul(z), other.matmul(x), other.matmul(y)),
{
    reveal(Expr::matmul);
    match (z, x, y, other) {
        (Expr::Is(p), Expr::Is(q), Expr::Is(r), Expr::Is(o)) => {
            let row = o.dims.len() == 1;
            let column = p.dims.len() == 1;
            let a = lhs_matrix(o.dims);
            let b = rhs_matrix(p.dims);
            let batch = broadcast_shape(
                batch_of(a),
                batch_of(b),
            );
            lemma_reshape(m, z, x, y, b);
            let left = if row {
                other.reshape(a)
            } else {
                other
            };
            let (rz, rx, ry) = if column {
                (z.reshape(b), x.reshape(b), y.reshape(b))
            } else {
                (z, x, y)
            };
            let lhs = left.broadcast_to(batch + matrix_of(a)).given(rz);
            assert(lhs == left.broadcast_to(batch + matrix_of(a)).given(rx));
            assert(lhs == left.broadcast_to(batch + matrix_of(a)).given(ry));
            let wide = batch + matrix_of(b);
            lemma_broadcast_to(m, rz, rx, ry, wide);
            let (bz, bx, by) = (
                rz.broadcast_to(wide),
                rx.broadcast_to(wide),
                ry.broadcast_to(wide),
            );
            let dims = batch + seq![a[a.len() - 2], b[b.len() - 1]];
            match (bz, bx, by, lhs) {
                (Expr::Is(u), Expr::Is(v), Expr::Is(w), Expr::Is(f)) => {
                    lemma_right(
                        m,
                        f.graph,
                        OpModel::Matmul { batch_rank: (dims.len() - 2) as usize },
                        dims,
                        f,
                        u,
                        v,
                        w,
                    );
                },
                _ => {},
            }
            let (pz, px, py) = (
                lhs.batched_product(bz, dims).given(lhs).given(left),
                lhs.batched_product(bx, dims).given(lhs).given(left),
                lhs.batched_product(by, dims).given(lhs).given(left),
            );
            assert(m.relates(pz, px, py));
            let rows: Seq<i64> = if row {
                Seq::empty()
            } else {
                seq![a[a.len() - 2]]
            };
            let columns: Seq<i64> = if column {
                Seq::empty()
            } else {
                seq![b[b.len() - 1]]
            };
            lemma_reshape(m, pz, px, py, batch + rows + columns);
        },
        _ => {},
    }
}

proof fn lemma_conv2d_left<A>(
    m: Mixture<A>,
    z: Expr,
    x: Expr,
    y: Expr,
    kernel: Expr,
    options: Conv2dOptions,
)
    requires
        m.linear(),
        m.relates(z, x, y),
    ensures
        m.relates(z.conv2d(kernel, options), x.conv2d(kernel, options), y.conv2d(kernel, options)),
{
    match (z, x, y, kernel) {
        (Expr::Is(a), Expr::Is(b), Expr::Is(c), Expr::Is(k)) => {
            match conv_shape(a.dims, k.dims, options) {
                Ok(dims) => {
                    let op = OpModel::Conv2d(options);
                    lemma_left(m, a.graph, op, dims, a, b, c, k);
                    assert(types_of(seq![a, k]) =~= types_of(seq![b, k]));
                    assert(types_of(seq![a, k]) =~= types_of(seq![c, k]));
                    lemma_typed(m, a.graph, op, dims, seq![a, k], seq![b, k], seq![c, k], a.dtype);
                },
                _ => {},
            }
        },
        _ => {},
    }
}

proof fn lemma_conv2d_right<A>(
    m: Mixture<A>,
    data: Expr,
    z: Expr,
    x: Expr,
    y: Expr,
    options: Conv2dOptions,
)
    requires
        m.linear(),
        m.relates(z, x, y),
    ensures
        m.relates(data.conv2d(z, options), data.conv2d(x, options), data.conv2d(y, options)),
{
    match (z, x, y, data) {
        (Expr::Is(a), Expr::Is(b), Expr::Is(c), Expr::Is(k)) => {
            match conv_shape(k.dims, a.dims, options) {
                Ok(dims) => {
                    let op = OpModel::Conv2d(options);
                    lemma_right(m, k.graph, op, dims, k, a, b, c);
                    assert(types_of(seq![k, a]) =~= types_of(seq![k, b]));
                    assert(types_of(seq![k, a]) =~= types_of(seq![k, c]));
                    lemma_typed(m, k.graph, op, dims, seq![k, a], seq![k, b], seq![k, c], k.dtype);
                },
                _ => {},
            }
        },
        _ => {},
    }
}

proof fn lemma_conv_transpose2d<A>(
    m: Mixture<A>,
    z: Expr,
    x: Expr,
    y: Expr,
    kernel: Expr,
    options: ConvTranspose2dOptions,
)
    requires
        m.linear(),
        m.relates(z, x, y),
    ensures
        m.relates(
            z.conv_transpose2d(kernel, options),
            x.conv_transpose2d(kernel, options),
            y.conv_transpose2d(kernel, options),
        ),
{
    match (z, x, y, kernel) {
        (Expr::Is(a), Expr::Is(b), Expr::Is(c), Expr::Is(k)) => {
            match (
                transposed_shape(
                    a.dims[1],
                    k.dims[0],
                    options.strides.0,
                    options.padding.0,
                    options.dilation.0,
                    options.output_padding.0,
                ),
                transposed_shape(
                    a.dims[2],
                    k.dims[1],
                    options.strides.1,
                    options.padding.1,
                    options.dilation.1,
                    options.output_padding.1,
                ),
            ) {
                (Ok(height), Ok(width)) => {
                    let dims = seq![a.dims[0], height, width, k.dims[2]];
                    let op = OpModel::ConvTranspose2d(options);
                    lemma_left(m, a.graph, op, dims, a, b, c, k);
                    assert(types_of(seq![a, k]) =~= types_of(seq![b, k]));
                    assert(types_of(seq![a, k]) =~= types_of(seq![c, k]));
                    lemma_typed(m, a.graph, op, dims, seq![a, k], seq![b, k], seq![c, k], a.dtype);
                },
                _ => {},
            }
        },
        _ => {},
    }
}

proof fn lemma_dynamic_slice<A>(
    m: Mixture<A>,
    z: Expr,
    x: Expr,
    y: Expr,
    starts: Seq<Value>,
    sizes: Seq<i64>,
)
    requires
        m.linear(),
        m.relates(z, x, y),
    ensures
        m.relates(
            z.dynamic_slice(starts, sizes),
            x.dynamic_slice(starts, sizes),
            y.dynamic_slice(starts, sizes),
        ),
{
    match (z, x, y) {
        (Expr::Is(a), Expr::Is(b), Expr::Is(c)) => {
            let args = seq![a] + starts;
            lemma_one(m, a.graph, OpModel::DynamicSlice, args, 0, sizes, a, b, c);
            assert(args.update(0, a) =~= seq![a] + starts);
            assert(args.update(0, b) =~= seq![b] + starts);
            assert(args.update(0, c) =~= seq![c] + starts);
        },
        _ => {},
    }
}

proof fn lemma_dynamic_update<A>(
    m: Mixture<A>,
    z: Expr,
    x: Expr,
    y: Expr,
    u: Expr,
    v: Expr,
    w: Expr,
    starts: Seq<Value>,
)
    requires
        m.linear(),
        m.relates(z, x, y),
        m.relates(u, v, w),
    ensures
        m.relates(
            z.dynamic_update_slice(u, starts),
            x.dynamic_update_slice(v, starts),
            y.dynamic_update_slice(w, starts),
        ),
{
    match (z, x, y) {
        (Expr::Is(a), Expr::Is(b), Expr::Is(c)) => match (u, v, w) {
            (Expr::Is(p), Expr::Is(q), Expr::Is(r)) => {
                let op = OpModel::DynamicUpdateSlice;
                assert(linear_with(op, 0));
                let (first, second, third) = (
                    seq![a, p] + starts,
                    seq![b, q] + starts,
                    seq![c, r] + starts,
                );
                assert(m.operands(op, first, second, third)) by {
                    assert forall|k: int| 0 <= k < first.len() implies if linear_with(op, k) {
                        similar(#[trigger] first[k], second[k], third[k]) && m.mixes(
                            first[k],
                            second[k],
                            third[k],
                        )
                    } else {
                        first[k] == second[k] && first[k] == third[k]
                    } by {
                        assert(k == 0 || k == 1 || first[k] == starts[k - 2]);
                    }
                }
                lemma_all(m, a.graph, op, a.dims, first, second, third);
            },
            _ => {},
        },
        _ => {},
    }
}

/// The rule of an absolute value.
proof fn lemma_abs<A>(m: Mixture<A>, x: Expr, dz: Expr, dx: Expr, dy: Expr)
    requires
        m.linear(),
        m.relates(dz, dx, dy),
    ensures
        m.relates(abs_gradient(x, dz), abs_gradient(x, dx), abs_gradient(x, dy)),
{
    let zero = x.filled(Scalar::Bits(F32_ZERO));
    lemma_filled(m, x, F32_ZERO);
    lemma_filled(m, x, F32_NAN);
    let nan = x.filled(Scalar::Bits(F32_NAN)).given(zero);
    let held = x.eq_mask(zero).given(nan);
    let at_zero = held.select(zero, nan);
    lemma_select(m, held, zero, zero, zero, nan, nan, nan);
    let above = x.gt_mask(zero).given(at_zero);
    let below = x.lt_mask(zero).given(above);
    lemma_neg(m, dz, dx, dy);
    let (nz, nx, ny) = (
        dz.neg().given(below),
        dx.neg().given(below),
        dy.neg().given(below),
    );
    lemma_select(m, below, nz, nx, ny, at_zero, at_zero, at_zero);
    lemma_select(
        m,
        above,
        dz,
        dx,
        dy,
        below.select(nz, at_zero),
        below.select(nx, at_zero),
        below.select(ny, at_zero),
    );
}

/// The rules of operations of one operand.
proof fn lemma_unary<A>(m: Mixture<A>, op: Unary, x: Expr, y: Expr, dz: Expr, dx: Expr, dy: Expr)
    requires
        m.linear(),
        m.relates(dz, dx, dy),
    ensures
        m.relates(
            unary_gradient(op, x, y, dz),
            unary_gradient(op, x, y, dx),
            unary_gradient(op, x, y, dy),
        ),
{
    reveal(unary_gradient);
    match op {
        Unary::Neg => lemma_neg(m, dz, dx, dy),
        Unary::Sin => lemma_times(m, Binary::Mul, dz, dx, dy, x.cos()),
        Unary::Cos => {
            lemma_times(m, Binary::Mul, dz, dx, dy, x.sin());
            lemma_neg(m, dz.mul(x.sin()), dx.mul(x.sin()), dy.mul(x.sin()));
        },
        Unary::Exp => lemma_times(m, Binary::Mul, dz, dx, dy, y),
        Unary::Expm1 => lemma_times(m, Binary::Mul, dz, dx, dy, x.exp()),
        Unary::Log => lemma_times(m, Binary::Div, dz, dx, dy, x),
        Unary::Log1p => lemma_times(
            m,
            Binary::Div,
            dz,
            dx,
            dy,
            x.add_scalar(Scalar::Bits(F32_ONE)),
        ),
        Unary::Sqrt => {
            lemma_times(m, Binary::Div, dz, dx, dy, y);
            lemma_mul_scalar(m, dz.div(y), dx.div(y), dy.div(y), Scalar::Bits(F32_HALF));
        },
        Unary::Rsqrt => {
            let cube = y.mul(y).mul(y);
            lemma_times(m, Binary::Mul, dz, dx, dy, cube);
            lemma_mul_scalar(
                m,
                dz.mul(cube),
                dx.mul(cube),
                dy.mul(cube),
                Scalar::Bits(F32_NEG_HALF),
            );
        },
        Unary::Tanh => lemma_times(
            m,
            Binary::Mul,
            dz,
            dx,
            dy,
            y.mul(y).neg().add_scalar(Scalar::Bits(F32_ONE)),
        ),
        Unary::Erf => {
            let slope = x.mul(x).neg().exp();
            lemma_times(m, Binary::Mul, dz, dx, dy, slope);
            lemma_mul_scalar(
                m,
                dz.mul(slope),
                dx.mul(slope),
                dy.mul(slope),
                Scalar::Bits(TWO_OVER_ROOT_PI),
            );
        },
        _ => lemma_abs(m, x, dz, dx, dy),
    }
}

/// The rules of a maximum or minimum.
proof fn lemma_extremum<A>(
    m: Mixture<A>,
    maximum: bool,
    a: Expr,
    b: Expr,
    dz: Expr,
    dx: Expr,
    dy: Expr,
)
    requires
        m.linear(),
        m.relates(dz, dx, dy),
    ensures
        m.parts(
            extremum_gradients(maximum, a, b, dz),
            extremum_gradients(maximum, a, b, dx),
            extremum_gradients(maximum, a, b, dy),
        ),
{
    reveal(extremum_gradients);
    let zero = a.filled(Scalar::Bits(F32_ZERO));
    lemma_filled(m, a, F32_ZERO);
    lemma_filled(m, a, F32_NAN);
    let nan = a.filled(Scalar::Bits(F32_NAN)).given(zero);
    let equal = a.eq_mask(b).given(nan);
    let half = Scalar::Bits(F32_HALF);
    lemma_mul_scalar(m, dz, dx, dy, half);
    let (hz, hx, hy) = (
        dz.mul_scalar(half).given(equal),
        dx.mul_scalar(half).given(equal),
        dy.mul_scalar(half).given(equal),
    );
    lemma_select(m, equal, hz, hx, hy, nan, nan, nan);
    let (tz, tx, ty) = (equal.select(hz, nan), equal.select(hx, nan), equal.select(hy, nan));
    let left = (if maximum {
        a.gt_mask(b)
    } else {
        a.lt_mask(b)
    }).given(tz);
    let right = (if maximum {
        a.lt_mask(b)
    } else {
        a.gt_mask(b)
    }).given(left);
    lemma_select(m, right, zero, zero, zero, tz, tx, ty);
    lemma_select(
        m,
        left.given(right),
        dz,
        dx,
        dy,
        right.select(zero, tz),
        right.select(zero, tx),
        right.select(zero, ty),
    );
    lemma_select(m, left, zero, zero, zero, tz, tx, ty);
    lemma_select(
        m,
        right,
        dz,
        dx,
        dy,
        left.select(zero, tz),
        left.select(zero, tx),
        left.select(zero, ty),
    );
}

/// The rules of operations of two operands.
proof fn lemma_binary<A>(m: Mixture<A>, op: Binary, a: Expr, b: Expr, dz: Expr, dx: Expr, dy: Expr)
    requires
        m.linear(),
        m.relates(dz, dx, dy),
    ensures
        m.parts(
            binary_gradients(op, a, b, dz),
            binary_gradients(op, a, b, dx),
            binary_gradients(op, a, b, dy),
        ),
{
    lemma_neg(m, dz, dx, dy);
    lemma_times(m, Binary::Mul, dz, dx, dy, a);
    lemma_times(m, Binary::Mul, dz, dx, dy, b);
    lemma_times(m, Binary::Div, dz, dx, dy, b);
    let q = a.div(b);
    lemma_times(m, Binary::Mul, dz, dx, dy, q);
    lemma_times(m, Binary::Div, dz.mul(q), dx.mul(q), dy.mul(q), b);
    lemma_neg(m, dz.mul(q).div(b), dx.mul(q).div(b), dy.mul(q).div(b));
    lemma_extremum(m, true, a, b, dz, dx, dy);
    lemma_extremum(m, false, a, b, dz, dx, dy);
}

proof fn lemma_spread<A>(
    m: Mixture<A>,
    dz: Expr,
    dx: Expr,
    dy: Expr,
    dims: Seq<i64>,
    axes: Seq<usize>,
)
    requires
        m.linear(),
        m.relates(dz, dx, dy),
    ensures
        m.relates(spread(dz, dims, axes), spread(dx, dims, axes), spread(dy, dims, axes)),
{
    reveal(spread);
    let kept = collapsed(dims, axes);
    lemma_reshape(m, dz, dx, dy, kept);
    lemma_broadcast_to(m, dz.reshape(kept), dx.reshape(kept), dy.reshape(kept), dims);
}

/// The rule of a maximum over axes.
proof fn lemma_maximum<A>(
    m: Mixture<A>,
    x: Expr,
    y: Expr,
    sz: Expr,
    sx: Expr,
    sy: Expr,
    dims: Seq<i64>,
    axes: Seq<usize>,
)
    requires
        m.linear(),
        m.relates(sz, sx, sy),
    ensures
        m.relates(
            maximum_gradient(x, y, sz, dims, axes),
            maximum_gradient(x, y, sx, dims, axes),
            maximum_gradient(x, y, sy, dims, axes),
        ),
{
    reveal(maximum_gradient);
    let winner = spread(y, dims, axes);
    let mask = x.eq_mask(winner);
    let count = tally(mask, dims, axes, true).given(mask);
    lemma_filled(m, x, F32_ZERO);
    lemma_filled(m, x, F32_NAN);
    let zero = x.filled(Scalar::Bits(F32_ZERO)).given(count);
    let nan = x.filled(Scalar::Bits(F32_NAN)).given(zero);
    let (gz, gx, gy) = (sz.given(nan), sx.given(nan), sy.given(nan));
    lemma_times(m, Binary::Div, gz, gx, gy, count);
    let (hz, hx, hy) = (gz.div(count), gx.div(count), gy.div(count));
    let held = mask.given(hz);
    lemma_select(m, held, hz, hx, hy, zero, zero, zero);
    let (tz, tx, ty) = (held.select(hz, zero), held.select(hx, zero), held.select(hy, zero));
    assert(mask.given(hx) == held && mask.given(hy) == held);
    let odd = x.ne_mask(x).given(tz);
    assert(x.ne_mask(x).given(tx) == odd && x.ne_mask(x).given(ty) == odd);
    let nan_count = tally(odd, dims, axes, false).given(odd);
    let some = count.gt_mask(zero).given(nan_count);
    lemma_select(m, some, tz, tx, ty, nan, nan, nan);
    let (uz, ux, uy) = (some.select(tz, nan), some.select(tx, nan), some.select(ty, nan));
    let spoiled = nan_count.gt_mask(zero).given(uz);
    assert(nan_count.gt_mask(zero).given(ux) == spoiled);
    assert(nan_count.gt_mask(zero).given(uy) == spoiled);
    lemma_select(m, spoiled, nan, nan, nan, uz, ux, uy);
}

proof fn lemma_reduce<A>(
    m: Mixture<A>,
    kind: Reduction,
    x: Expr,
    y: Expr,
    dz: Expr,
    dx: Expr,
    dy: Expr,
    dims: Seq<i64>,
    axes: Seq<usize>,
)
    requires
        m.linear(),
        m.relates(dz, dx, dy),
    ensures
        m.relates(
            reduce_gradient(kind, x, y, dz, dims, axes),
            reduce_gradient(kind, x, y, dx, dims, axes),
            reduce_gradient(kind, x, y, dy, dims, axes),
        ),
{
    lemma_spread(m, dz, dx, dy, dims, axes);
    lemma_maximum(
        m,
        x,
        y,
        spread(dz, dims, axes),
        spread(dx, dims, axes),
        spread(dy, dims, axes),
        dims,
        axes,
    );
}

/// The rules of constant padding.
proof fn lemma_pad<A>(
    m: Mixture<A>,
    graph: u64,
    dims: Seq<i64>,
    padding: Seq<Widths>,
    dz: Expr,
    dx: Expr,
    dy: Expr,
)
    requires
        m.linear(),
        m.relates(dz, dx, dy),
        dz is Is,
    ensures
        m.parts(
            pad_gradients(graph, dims, padding, dz),
            pad_gradients(graph, dims, padding, dx),
            pad_gradients(graph, dims, padding, dy),
        ),
{
    lemma_sliced(m, dz, dx, dy, pad_interior(dims, padding));
    reveal(border_gradient);
    let zero = scalar(graph, Scalar::Bits(F32_ZERO));
    let one = scalar(graph, Scalar::Bits(F32_ONE)).given(zero);
    let interior = one.broadcast_to(dims).pad(padding, Scalar::Bits(F32_ZERO));
    let out = dz->Is_0.dims;
    lemma_constant(m, graph, F32_ZERO, out);
    let fill = zero.broadcast_to(out);
    lemma_select(m, interior, fill, fill, fill, dz, dx, dy);
    lemma_sum(
        m,
        interior.select(fill, dz),
        interior.select(fill, dx),
        interior.select(fill, dy),
        span(0, out.len()),
        false,
    );
}

/// The rules of attention.
proof fn lemma_attention<A>(
    m: Mixture<A>,
    args: Seq<Value>,
    scale: Scalar,
    dz: Expr,
    dx: Expr,
    dy: Expr,
)
    requires
        m.linear(),
        m.relates(dz, dx, dy),
    ensures
        m.parts(
            attention_gradients(args, scale, dz),
            attention_gradients(args, scale, dx),
            attention_gradients(args, scale, dy),
        ),
{
    let rank = args[0].dims.len();
    let (first, second) = ((rank - 2) as usize, (rank - 1) as usize);
    let weights = attention_weights(args, scale);
    lemma_scores(m, weights, args[2], dz, dx, dy);
    let (sz, sx, sy) = (
        score_gradient(weights, args[2], dz).given(weights),
        score_gradient(weights, args[2], dx).given(weights),
        score_gradient(weights, args[2], dy).given(weights),
    );
    let (queries, keys) = (Expr::Is(args[0]), Expr::Is(args[1]));
    lemma_matmul_left(m, sz, sx, sy, keys);
    lemma_mul_scalar(m, sz.matmul(keys), sx.matmul(keys), sy.matmul(keys), scale);
    lemma_swap_axes(m, sz, sx, sy, first, second);
    let (tz, tx, ty) = (
        sz.swap_axes(first, second),
        sx.swap_axes(first, second),
        sy.swap_axes(first, second),
    );
    lemma_matmul_left(m, tz, tx, ty, queries);
    lemma_mul_scalar(m, tz.matmul(queries), tx.matmul(queries), ty.matmul(queries), scale);
    lemma_matmul_right(m, weights.swap_axes(first, second), dz, dx, dy);
}

proof fn lemma_scores<A>(
    m: Mixture<A>,
    weights: Expr,
    value: Value,
    dz: Expr,
    dx: Expr,
    dy: Expr,
)
    requires
        m.linear(),
        m.relates(dz, dx, dy),
    ensures
        m.relates(
            score_gradient(weights, value, dz),
            score_gradient(weights, value, dx),
            score_gradient(weights, value, dy),
        ),
{
    reveal(score_gradient);
    let rank = value.dims.len();
    let transposed = Expr::Is(value).swap_axes((rank - 2) as usize, (rank - 1) as usize);
    lemma_matmul_left(m, dz, dx, dy, transposed);
    let (oz, ox, oy) = (dz.matmul(transposed), dx.matmul(transposed), dy.matmul(transposed));
    lemma_times(m, Binary::Mul, oz, ox, oy, weights);
    let axes = seq![(rank - 1) as usize];
    let (pz, px, py) = (oz.mul(weights), ox.mul(weights), oy.mul(weights));
    lemma_sum(m, pz, px, py, axes, true);
    let dims = weights->Is_0.dims;
    lemma_broadcast_to(m, pz.sum(axes, true), px.sum(axes, true), py.sum(axes, true), dims);
    let (lz, lx, ly) = (
        pz.sum(axes, true).broadcast_to(dims),
        px.sum(axes, true).broadcast_to(dims),
        py.sum(axes, true).broadcast_to(dims),
    );
    lemma_plus(m, Binary::Sub, oz, ox, oy, lz, lx, ly);
    let kept = weights.given(lz);
    assert(weights.given(lx) == kept && weights.given(ly) == kept);
    lemma_scaled(m, kept, oz.sub(lz), ox.sub(lx), oy.sub(ly));
}

/// The gradient of the data of a convolution.
proof fn lemma_data<A>(
    m: Mixture<A>,
    dz: Value,
    dx: Value,
    dy: Value,
    kernel: Value,
    dims: Seq<i64>,
    options: Conv2dOptions,
)
    requires
        m.linear(),
        similar(dz, dx, dy),
        m.mixes(dz, dx, dy),
    ensures
        m.relates(
            data_gradient(dz, kernel, dims, options),
            data_gradient(dx, kernel, dims, options),
            data_gradient(dy, kernel, dims, options),
        ),
{
    if options.groups == 1 {
        let (z, x, y) = (Expr::Is(dz), Expr::Is(dx), Expr::Is(dy));
        let out = dz.dims;
        let k = kernel.dims;
        let attributes = ConvTranspose2dOptions {
            strides: options.strides,
            padding: options.padding,
            dilation: options.dilation,
            output_padding: (
                shortfall(
                    dims[1],
                    out[1],
                    k[0],
                    options.strides.0,
                    options.padding.0,
                    options.dilation.0,
                ),
                shortfall(
                    dims[2],
                    out[2],
                    k[1],
                    options.strides.1,
                    options.padding.1,
                    options.dilation.1,
                ),
            ),
        };
        lemma_conv_transpose2d(m, z, x, y, Expr::Is(kernel), attributes);
    } else {
        lemma_left(
            m,
            dz.graph,
            OpModel::Conv2dInputGradient(options),
            dims,
            dz,
            dx,
            dy,
            kernel,
        );
    }
}

/// The rules of convolutions.
proof fn lemma_convolutions<A>(
    m: Mixture<A>,
    x: Value,
    kernel: Value,
    dz: Value,
    dx: Value,
    dy: Value,
    options: Conv2dOptions,
    transposed: ConvTranspose2dOptions,
)
    requires
        m.linear(),
        similar(dz, dx, dy),
        m.mixes(dz, dx, dy),
    ensures
        m.parts(
            conv_gradients(x, kernel, dz, options),
            conv_gradients(x, kernel, dx, options),
            conv_gradients(x, kernel, dy, options),
        ),
        m.parts(
            conv_oihw_gradients(x, kernel, dz, options),
            conv_oihw_gradients(x, kernel, dx, options),
            conv_oihw_gradients(x, kernel, dy, options),
        ),
        m.parts(
            conv_transpose_gradients(x, kernel, dz, transposed),
            conv_transpose_gradients(x, kernel, dx, transposed),
            conv_transpose_gradients(x, kernel, dy, transposed),
        ),
{
    lemma_constant(m, x.graph, F32_ZERO, x.dims);
    lemma_constant(m, x.graph, F32_ZERO, kernel.dims);
    lemma_data(m, dz, dx, dy, kernel, x.dims, options);
    let op = OpModel::Conv2dKernelGradient(options);
    lemma_right(m, dz.graph, op, kernel.dims, x, dz, dx, dy);
    match Expr::Is(kernel).transpose(seq![2, 3, 1, 0]) {
        Expr::Is(turned) => {
            lemma_data(m, dz, dx, dy, turned, x.dims, options);
            let dims = hwio(kernel.dims);
            lemma_right(m, dz.graph, op, dims, x, dz, dx, dy);
            let (wz, wx, wy) = (
                applied(dz.graph, op, seq![x, dz], dims),
                applied(dx.graph, op, seq![x, dx], dims),
                applied(dy.graph, op, seq![x, dy], dims),
            );
            lemma_transpose(m, wz, wx, wy, seq![3, 2, 0, 1]);
        },
        _ => {},
    }
    let adjoint = adjoint_options(transposed);
    lemma_conv2d_left(
        m,
        Expr::Is(dz),
        Expr::Is(dx),
        Expr::Is(dy),
        Expr::Is(kernel),
        adjoint,
    );
    lemma_left(
        m,
        dz.graph,
        OpModel::Conv2dKernelGradient(adjoint),
        kernel.dims,
        dz,
        dx,
        dy,
        x,
    );
}

/// The rule of sums over windows.
proof fn lemma_pool<A>(
    m: Mixture<A>,
    dz: Value,
    dx: Value,
    dy: Value,
    dims: Seq<i64>,
    options: Pool2dOptions,
)
    requires
        m.linear(),
        similar(dz, dx, dy),
        m.mixes(dz, dx, dy),
    ensures
        m.relates(
            sum_pool_gradient(dz, dims, options),
            sum_pool_gradient(dx, dims, options),
            sum_pool_gradient(dy, dims, options),
        ),
{
    lemma_constant(m, dz.graph, F32_ZERO, dims);
    reveal(windows_gradient);
    let (z, x, y) = (Expr::Is(dz), Expr::Is(dx), Expr::Is(dy));
    let order = seq![0usize, 3, 1, 2];
    lemma_transpose(m, z, x, y, order);
    let flat = seq![(dims[0] * dims[3]) as i64, dz.dims[1], dz.dims[2], 1];
    lemma_reshape(m, z.transpose(order), x.transpose(order), y.transpose(order), flat);
    let (iz, ix, iy) = (
        single_channels(dz, dims),
        single_channels(dx, dims),
        single_channels(dy, dims),
    );
    assert(m.relates(iz, ix, iy));
    let ones = scalar(dz.graph, Scalar::Bits(F32_ONE)).broadcast_to(
        seq![options.window.0, options.window.1, 1, 1],
    );
    let kernel = ones.given(iz);
    assert(ones.given(ix) == kernel && ones.given(iy) == kernel);
    let attributes = ConvTranspose2dOptions {
        strides: options.strides,
        padding: options.padding,
        dilation: (1, 1),
        output_padding: (
            pool_rest(
                dims[1],
                options.window.0,
                options.strides.0,
                options.padding.0,
            ),
            pool_rest(
                dims[2],
                options.window.1,
                options.strides.1,
                options.padding.1,
            ),
        ),
    };
    let (jz, jx, jy) = (iz.given(kernel), ix.given(kernel), iy.given(kernel));
    lemma_conv_transpose2d(m, jz, jx, jy, kernel, attributes);
    let (cz, cx, cy) = (
        jz.conv_transpose2d(kernel, attributes),
        jx.conv_transpose2d(kernel, attributes),
        jy.conv_transpose2d(kernel, attributes),
    );
    let wide = seq![dims[0], dims[3], dims[1], dims[2]];
    lemma_reshape(m, cz, cx, cy, wide);
    lemma_transpose(
        m,
        cz.reshape(wide),
        cx.reshape(wide),
        cy.reshape(wide),
        seq![0usize, 2, 3, 1],
    );
}

/// The rules of gathers, dynamic slices and dynamic updates.
proof fn lemma_indexed<A>(
    m: Mixture<A>,
    source: Value,
    other: Value,
    starts: Seq<Value>,
    axis: usize,
    dz: Value,
    dx: Value,
    dy: Value,
)
    requires
        m.linear(),
        similar(dz, dx, dy),
        m.mixes(dz, dx, dy),
    ensures
        m.relates(
            dynamic_slice_gradient(source, starts, Expr::Is(dz)),
            dynamic_slice_gradient(source, starts, Expr::Is(dx)),
            dynamic_slice_gradient(source, starts, Expr::Is(dy)),
        ),
        m.parts(
            dynamic_update_gradients(source, starts, Expr::Is(dz)),
            dynamic_update_gradients(source, starts, Expr::Is(dx)),
            dynamic_update_gradients(source, starts, Expr::Is(dy)),
        ),
        m.relates(
            Expr::Is(dz).take(Expr::Is(other), axis),
            Expr::Is(dx).take(Expr::Is(other), axis),
            Expr::Is(dy).take(Expr::Is(other), axis),
        ),
        m.relates(
            Expr::Is(dz).take_along_axis(Expr::Is(other), axis),
            Expr::Is(dx).take_along_axis(Expr::Is(other), axis),
            Expr::Is(dy).take_along_axis(Expr::Is(other), axis),
        ),
{
    let (z, x, y) = (Expr::Is(dz), Expr::Is(dx), Expr::Is(dy));
    lemma_constant(m, source.graph, F32_ZERO, source.dims);
    let zero = scalar(source.graph, Scalar::Bits(F32_ZERO)).broadcast_to(source.dims);
    lemma_dynamic_update(m, zero, zero, zero, z, x, y, starts);
    lemma_dynamic_update(
        m,
        z.given(zero),
        x.given(zero),
        y.given(zero),
        zero,
        zero,
        zero,
        starts,
    );
    lemma_dynamic_slice(m, z, x, y, starts, source.dims);
    lemma_left(
        m,
        dz.graph,
        OpModel::Take { axis },
        taken(dz.dims, other.dims, axis),
        dz,
        dx,
        dy,
        other,
    );
    lemma_left(m, dz.graph, OpModel::TakeAlongAxis { axis }, other.dims, dz, dx, dy, other);
}

/// The rules of concatenation and of explicit derivatives.
proof fn lemma_lists<A>(m: Mixture<A>, args: Seq<Value>, axis: usize, dz: Expr, dx: Expr, dy: Expr)
    requires
        m.linear(),
        m.relates(dz, dx, dy),
    ensures
        m.parts(
            concatenate_gradients(args, axis, dz),
            concatenate_gradients(args, axis, dx),
            concatenate_gradients(args, axis, dy),
        ),
        m.parts(
            diagonal_gradients(args, dz),
            diagonal_gradients(args, dx),
            diagonal_gradients(args, dy),
        ),
{
    let (cz, cx, cy) = (
        concatenate_gradients(args, axis, dz),
        concatenate_gradients(args, axis, dx),
        concatenate_gradients(args, axis, dy),
    );
    assert forall|k: int| 0 <= k < cz.len() implies (#[trigger] cz[k]).0 == cx[k].0 && cz[k].0
        == cy[k].0 && m.relates(cz[k].1, cx[k].1, cy[k].1) by {
        lemma_narrow(
            m,
            dz,
            dx,
            dy,
            axis,
            axis_total(args.take(k), axis) as i64,
            args[k].dims[axis as int],
        );
    }
    let (gz, gx, gy) = (
        diagonal_gradients(args, dz),
        diagonal_gradients(args, dx),
        diagonal_gradients(args, dy),
    );
    assert forall|k: int| 0 <= k < gz.len() implies (#[trigger] gz[k]).0 == gx[k].0 && gz[k].0
        == gy[k].0 && m.relates(gz[k].1, gx[k].1, gy[k].1) by {
        lemma_times(m, Binary::Mul, dz, dx, dy, Expr::Is(args[2 * k + 2]));
    }
}

/// The rules of operations that rearrange, convert or accumulate elements.
proof fn lemma_rearranging<A>(m: Mixture<A>, v: Value, dz: Value, dx: Value, dy: Value)
    requires
        m.linear(),
        similar(dz, dx, dy),
        m.mixes(dz, dx, dy),
        v.op is Convert || v.op is Reshape || v.op is OptimizationBarrier || v.op is Slice || v.op
            is SliceGradient || v.op is Reverse || v.op is Transpose || v.op is Broadcast || v.op
            is Cumsum || v.op is Take || v.op is TakeAlongAxis || v.op is GatherGradient,
    ensures
        m.parts(rule(v, dz), rule(v, dx), rule(v, dy)),
{
    reveal(rule);
    let (z, x, y) = (Expr::Is(dz), Expr::Is(dx), Expr::Is(dy));
    let from = v.args[0].dims;
    match v.op {
        OpModel::Convert { .. } => {
            let dtype = v.args[0].dtype;
            if is_floating(dtype) {
                lemma_only(m, OpModel::Convert { dtype }, dz.dims, dz, dx, dy);
            }
        },
        OpModel::Reshape => lemma_reshape(m, z, x, y, from),
        OpModel::OptimizationBarrier => lemma_only(
            m,
            OpModel::OptimizationBarrier,
            dz.dims,
            dz,
            dx,
            dy,
        ),
        OpModel::Slice(axes) => lemma_only(m, OpModel::SliceGradient(axes), from, dz, dx, dy),
        OpModel::SliceGradient(axes) => lemma_sliced(m, z, x, y, axes),
        OpModel::Reverse { axes } => lemma_flip(m, z, x, y, axes),
        OpModel::Transpose { permutation } => lemma_transpose(
            m,
            z,
            x,
            y,
            inverse_of(permutation),
        ),
        OpModel::Broadcast { axes } => {
            let repeated = repeated_axes(axes, from, v.dims, v.dims.len());
            lemma_sum(m, z, x, y, repeated, true);
            lemma_reshape(m, z.sum(repeated, true), x.sum(repeated, true), y.sum(repeated, true), from);
        },
        OpModel::Cumsum { axis } => {
            let axes = seq![axis];
            lemma_flip(m, z, x, y, axes);
            lemma_cumsum(m, z.flip(axes), x.flip(axes), y.flip(axes), axis);
            lemma_flip(
                m,
                z.flip(axes).cumsum(axis),
                x.flip(axes).cumsum(axis),
                y.flip(axes).cumsum(axis),
                axes,
            );
        },
        OpModel::Take { axis } => lemma_left(
            m,
            dz.graph,
            OpModel::GatherGradient { axis, batched: false },
            from,
            dz,
            dx,
            dy,
            v.args[1],
        ),
        OpModel::TakeAlongAxis { axis } => lemma_left(
            m,
            dz.graph,
            OpModel::GatherGradient { axis, batched: true },
            from,
            dz,
            dx,
            dy,
            v.args[1],
        ),
        OpModel::GatherGradient { axis, .. } => lemma_indexed(
            m,
            v,
            v.args[1],
            Seq::empty(),
            axis,
            dz,
            dx,
            dy,
        ),
        _ => {},
    }
}

/// The rules of convolutions and windows.
proof fn lemma_windowed<A>(m: Mixture<A>, v: Value, dz: Value, dx: Value, dy: Value)
    requires
        m.linear(),
        similar(dz, dx, dy),
        m.mixes(dz, dx, dy),
        v.op is SumPool2d || v.op is Conv2dInputGradient || v.op is Conv2dKernelGradient || v.op
            is ConvTranspose2d || v.op is Conv2d || v.op is Conv2dOihw,
    ensures
        m.parts(rule(v, dz), rule(v, dx), rule(v, dy)),
{
    reveal(rule);
    let (z, x, y) = (Expr::Is(dz), Expr::Is(dx), Expr::Is(dy));
    let (a, b) = (v.args[0], v.args[1]);
    match v.op {
        OpModel::SumPool2d(options) => lemma_pool(m, dz, dx, dy, a.dims, options),
        OpModel::Conv2dInputGradient(options) => {
            lemma_conv2d_left(m, z, x, y, Expr::Is(b), options);
            lemma_left(
                m,
                dz.graph,
                OpModel::Conv2dKernelGradient(options),
                b.dims,
                dz,
                dx,
                dy,
                a,
            );
        },
        OpModel::Conv2dKernelGradient(options) => {
            lemma_right(
                m,
                dz.graph,
                OpModel::Conv2dInputGradient(options),
                a.dims,
                b,
                dz,
                dx,
                dy,
            );
            lemma_conv2d_right(m, Expr::Is(a), z, x, y, options);
        },
        OpModel::ConvTranspose2d(options) => lemma_convolutions(
            m,
            a,
            b,
            dz,
            dx,
            dy,
            adjoint_options(options),
            options,
        ),
        OpModel::Conv2d(options) | OpModel::Conv2dOihw(options) => {
            let any = ConvTranspose2dOptions {
                strides: options.strides,
                padding: options.padding,
                dilation: options.dilation,
                output_padding: (0, 0),
            };
            lemma_convolutions(m, a, b, dz, dx, dy, options, any);
        },
        _ => {},
    }
}

/// Every derivative rule is linear in the gradient of its result.
proof fn lemma_rule<A>(m: Mixture<A>, v: Value, dz: Value, dx: Value, dy: Value)
    requires
        m.linear(),
        similar(dz, dx, dy),
        m.mixes(dz, dx, dy),
    ensures
        m.parts(rule(v, dz), rule(v, dx), rule(v, dy)),
{
    let (z, x, y) = (Expr::Is(dz), Expr::Is(dx), Expr::Is(dy));
    let (operand, result) = (Expr::Is(v.args[0]), Expr::Is(v));
    match v.op {
        OpModel::Convert { .. }
        | OpModel::Reshape
        | OpModel::OptimizationBarrier
        | OpModel::Slice(..)
        | OpModel::SliceGradient(..)
        | OpModel::Reverse { .. }
        | OpModel::Transpose { .. }
        | OpModel::Broadcast { .. }
        | OpModel::Cumsum { .. }
        | OpModel::Take { .. }
        | OpModel::TakeAlongAxis { .. }
        | OpModel::GatherGradient { .. } => lemma_rearranging(m, v, dz, dx, dy),
        OpModel::SumPool2d(..)
        | OpModel::Conv2dInputGradient(..)
        | OpModel::Conv2dKernelGradient(..)
        | OpModel::ConvTranspose2d(..)
        | OpModel::Conv2d(..)
        | OpModel::Conv2dOihw(..) => lemma_windowed(m, v, dz, dx, dy),
        OpModel::WithElementwiseDerivative => {
            reveal(rule);
            lemma_lists(m, v.args, 0, z, x, y);
        },
        OpModel::Concatenate { axis } => {
            reveal(rule);
            lemma_lists(m, v.args, axis, z, x, y);
        },
        OpModel::Attention { scale } => {
            reveal(rule);
            lemma_attention(m, v.args, scale, z, x, y);
        },
        OpModel::Relu => {
            reveal(rule);
            lemma_filled(m, operand, F32_ZERO);
            let zero = operand.filled(Scalar::Bits(F32_ZERO));
            lemma_select(m, operand.gt_mask(zero), z, x, y, zero, zero, zero);
        },
        OpModel::Softplus => {
            reveal(rule);
            lemma_times(m, Binary::Mul, z, x, y, operand.sigmoid());
        },
        OpModel::Sigmoid => {
            reveal(rule);
            let rest = operand.neg().sigmoid();
            let (p, q, r) = (z.given(rest), x.given(rest), y.given(rest));
            lemma_times(m, Binary::Mul, p, q, r, result);
            lemma_times(m, Binary::Mul, p.mul(result), q.mul(result), r.mul(result), rest);
        },
        OpModel::Select => {
            reveal(rule);
            let bits = Scalar::Bits(F32_ZERO);
            lemma_filled(m, z, F32_ZERO);
            let zero = z.filled(bits);
            assert(x.filled(bits) == zero && y.filled(bits) == zero) by {
                reveal(Expr::filled);
            }
            lemma_select(m, operand.given(zero), z, x, y, zero, zero, zero);
            lemma_select(m, operand, zero, zero, zero, z, x, y);
        },
        OpModel::Binary(op) => {
            reveal(rule);
            lemma_binary(m, op, operand, Expr::Is(v.args[1]), z, x, y);
        },
        OpModel::Unary(op) => {
            reveal(rule);
            lemma_unary(m, op, operand, result, z, x, y);
        },
        OpModel::Pad(padding) => {
            reveal(rule);
            lemma_pad(m, v.graph, v.args[0].dims, padding, z, x, y);
        },
        OpModel::Reduce { kind, axes } => {
            reveal(rule);
            lemma_reduce(m, kind, operand, result, z, x, y, v.args[0].dims, axes);
        },
        OpModel::Matmul { .. } => {
            reveal(rule);
            let order = transposing(v.args[0].dims.len());
            lemma_matmul_left(m, z, x, y, Expr::Is(v.args[1]).transpose(order));
            lemma_matmul_right(m, operand.transpose(order), z, x, y);
        },
        OpModel::DynamicSlice => {
            reveal(rule);
            lemma_indexed(m, v.args[0], v, v.args.skip(1), 0, dz, dx, dy);
        },
        OpModel::DynamicUpdateSlice => {
            reveal(rule);
            lemma_indexed(m, v.args[1], v, v.args.skip(2), 0, dz, dx, dy);
        },
        _ => {
            reveal(rule);
        },
    }
}

/// Lists of related expressions are collected alike.
proof fn lemma_collect<A>(m: Mixture<A>, z: Seq<Expr>, x: Seq<Expr>, y: Seq<Expr>)
    requires
        z.len() == x.len(),
        z.len() == y.len(),
        forall|k: int| 0 <= k < z.len() ==> m.relates(#[trigger] z[k], x[k], y[k]),
    ensures
        m.gradients(collect(z), collect(x), collect(y)),
    decreases z.len(),
{
    if z.len() > 0 {
        let (a, b, c) = (z.drop_last(), x.drop_last(), y.drop_last());
        assert forall|k: int| 0 <= k < a.len() implies m.relates(#[trigger] a[k], b[k], c[k]) by {
            assert(m.relates(z[k], x[k], y[k]));
        }
        lemma_collect(m, a, b, c);
        let last = z.len() - 1;
        assert(m.relates(z[last], x[last], y[last]));
    }
}

/// Adding mixtures gives mixtures.
proof fn lemma_added<A>(
    m: Mixture<A>,
    wires: Seq<usize>,
    kz: Known,
    kx: Known,
    ky: Known,
    pz: Parts,
    px: Parts,
    py: Parts,
    count: nat,
)
    requires
        m.linear(),
        m.known(kz, kx, ky),
        m.parts(pz, px, py),
        count <= pz.len(),
        forall|k: int|
            0 <= k < pz.len() ==> (#[trigger] pz[k]).0 < wires.len() && wires[pz[k].0 as int]
                < kz.len(),
    ensures
        m.outcomes(
            added(kz, wires, pz, count),
            added(kx, wires, px, count),
            added(ky, wires, py, count),
        ),
    decreases count,
{
    if count > 0 {
        let last = (count - 1) as nat;
        lemma_added(m, wires, kz, kx, ky, pz, px, py, last);
        let (bz, bx, by) = (
            added(kz, wires, pz, last),
            added(kx, wires, px, last),
            added(ky, wires, py, last),
        );
        match (bz, bx, by) {
            (Ok(a), Ok(b), Ok(c)) => {
                let (p, q, r) = (pz[last as int], px[last as int], py[last as int]);
                assert(p.0 == q.0 && p.0 == r.0 && m.relates(p.1, q.1, r.1));
                let at = wires[p.0 as int] as int;
                lemma_added_length(kz, wires, pz, last);
                lemma_sums(m, a, b, c, at, p.1, q.1, r.1);
            },
            _ => {},
        }
    }
}

/// Adding contributions keeps the number of positions.
proof fn lemma_added_length(known: Known, wires: Seq<usize>, parts: Parts, count: nat)
    requires
        count <= parts.len(),
        forall|k: int|
            0 <= k < parts.len() ==> wires[(#[trigger] parts[k]).0 as int] < known.len(),
    ensures
        added(known, wires, parts, count) matches Ok(next) ==> next.len() == known.len(),
    decreases count,
{
    if count > 0 {
        lemma_added_length(known, wires, parts, (count - 1) as nat);
        assert(wires[parts[count - 1].0 as int] < known.len());
    }
}

/// What stands at one position once a contribution is added.
pub open spec fn summed(known: Known, at: int, part: Expr) -> Expr {
    match known[at] {
        None => part,
        Some(previous) => Expr::Is(previous).add(part),
    }
}

proof fn lemma_sums<A>(
    m: Mixture<A>,
    a: Known,
    b: Known,
    c: Known,
    at: int,
    z: Expr,
    x: Expr,
    y: Expr,
)
    requires
        m.linear(),
        m.known(a, b, c),
        m.relates(z, x, y),
    ensures
        0 <= at < a.len() ==> m.relates(summed(a, at, z), summed(b, at, x), summed(c, at, y)),
        0 <= at < a.len() && summed(a, at, z) is Is ==> m.known(
            a.update(at, Some(summed(a, at, z)->Is_0)),
            b.update(at, Some(summed(b, at, x)->Is_0)),
            c.update(at, Some(summed(c, at, y)->Is_0)),
        ),
{
    if 0 <= at < a.len() {
        match (a[at], b[at], c[at]) {
            (Some(p), Some(q), Some(r)) => {
                lemma_plus(
                    m,
                    Binary::Add,
                    Expr::Is(p),
                    Expr::Is(q),
                    Expr::Is(r),
                    z,
                    x,
                    y,
                );
            },
            _ => {},
        }
    }
}

/// A sweep takes mixtures to mixtures.
proof fn lemma_swept<A>(
    m: Mixture<A>,
    values: Seq<Value>,
    wires: Seq<Seq<usize>>,
    graph: u64,
    root: int,
    kz: Known,
    kx: Known,
    ky: Known,
    count: nat,
)
    requires
        m.linear(),
        m.known(kz, kx, ky),
        well_wired(values, wires, graph),
        shaped(kz, values, wires, graph, root),
        count <= values.len(),
        root < values.len(),
    ensures
        m.outcomes(
            swept(values, wires, kz, count),
            swept(values, wires, kx, count),
            swept(values, wires, ky, count),
        ),
    decreases count,
{
    if count > 0 {
        let at = count - 1;
        match (kz[at], kx[at], ky[at]) {
            (Some(dz), Some(dx), Some(dy)) => {
                let v = values[at];
                lemma_rule(m, v, dz, dx, dy);
                let (pz, px, py) = (rule(v, dz), rule(v, dx), rule(v, dy));
                let (ez, ex, ey) = (exprs_of(pz), exprs_of(px), exprs_of(py));
                assert forall|k: int| 0 <= k < ez.len() implies m.relates(
                    #[trigger] ez[k],
                    ex[k],
                    ey[k],
                ) by {
                    assert(pz[k].0 == px[k].0);
                }
                lemma_collect(m, ez, ex, ey);
                assert(v.graph == graph);
                contributions_have_operand_extents(v, dz);
                assert forall|k: int| 0 <= k < pz.len() implies (#[trigger] pz[k]).0
                    < wires[at].len() && wires[at][pz[k].0 as int] < kz.len() by {
                    assert(fits_operand(v, pz[k]));
                    assert(wires[at][pz[k].0 as int] < at);
                }
                lemma_added(m, wires[at], kz, kx, ky, pz, px, py, pz.len());
                lemma_stepped_shaped(kz, values, wires, graph, root, at);
                match (
                    stepped(kz, wires[at], pz),
                    stepped(kx, wires[at], px),
                    stepped(ky, wires[at], py),
                ) {
                    (Ok(a), Ok(b), Ok(c)) => {
                        lemma_swept(m, values, wires, graph, root, a, b, c, at as nat);
                    },
                    _ => {},
                }
            },
            _ => {
                lemma_swept(m, values, wires, graph, root, kz, kx, ky, at as nat);
            },
        }
    }
}

/// Vector-Jacobian products are linear in the cotangent. Where the cotangent is
/// a mixture of two others, in any arithmetic in which the operations are linear
/// in the operands that they should be, every gradient is the same mixture of
/// the gradients of those two, and the gradients are refused just where theirs
/// are.
pub proof fn gradients_are_linear_in_the_cotangent<A>(
    m: Mixture<A>,
    graph: Graph,
    loss: Tensor,
    inputs: Seq<Tensor>,
    mixed: Value,
    first: Value,
    second: Value,
)
    requires
        m.linear(),
        graph.wf(),
        graph.owns(loss),
        graph.admits_all(inputs),
        mixed.graph == loss@.graph,
        mixed.dims == loss@.dims,
        similar(mixed, first, second),
        m.mixes(mixed, first, second),
    ensures
        m.gradients(
            reverse_gradients(graph, loss, inputs, Some(mixed)),
            reverse_gradients(graph, loss, inputs, Some(first)),
            reverse_gradients(graph, loss, inputs, Some(second)),
        ),
{
    let values = graph.model();
    let wires = graph.wires();
    let root = loss.id() as int;
    lemma_well_wired(graph);
    match grad_refusal(graph, loss, values_of(inputs), Some(mixed)) {
        Some(_) => {},
        None => {
            let (kz, kx, ky) = (
                seeded(values.len(), root, mixed),
                seeded(values.len(), root, first),
                seeded(values.len(), root, second),
            );
            assert(shaped(kz, values, wires, graph.key(), root));
            lemma_swept(m, values, wires, graph.key(), root, kz, kx, ky, values.len());
            match (
                swept(values, wires, kz, values.len()),
                swept(values, wires, kx, values.len()),
                swept(values, wires, ky, values.len()),
            ) {
                (Ok(a), Ok(b), Ok(c)) => {
                    lemma_swept_shaped(kz, values, wires, graph.key(), root, values.len());
                    let (rz, rx, ry) = (
                        requested(graph.key(), a, inputs),
                        requested(graph.key(), b, inputs),
                        requested(graph.key(), c, inputs),
                    );
                    assert forall|k: int| 0 <= k < rz.len() implies m.relates(
                        #[trigger] rz[k],
                        rx[k],
                        ry[k],
                    ) by {
                        lemma_leaf(loss@.graph, values_of(inputs), inputs.len(), k);
                        assert(graph.admits(inputs[k]));
                        assert(0 <= inputs[k].id() < values.len());
                        let position = inputs[k].id() as int;
                        lemma_constant(m, graph.key(), F32_ZERO, inputs[k]@.dims);
                        assert(a[position] is Some <==> b[position] is Some);
                    }
                    lemma_collect(m, rz, rx, ry);
                },
                _ => {},
            }
        },
    }
}

/// A list of inputs that is not refused belongs to the graph.
proof fn lemma_leaf(graph: u64, inputs: Seq<Value>, count: nat, k: int)
    requires
        leaves_refusal(graph, inputs, count) is None,
        0 <= k < count,
    ensures
        inputs[k].graph == graph,
    decreases count,
{
    if k < count - 1 {
        lemma_leaf(graph, inputs, (count - 1) as nat, k);
    }
}

/// Whether two lists of values and their wires are the same up to a position.
pub open spec fn same_up_to(
    values: Seq<Value>,
    wires: Seq<Seq<usize>>,
    others: Seq<Value>,
    strands: Seq<Seq<usize>>,
    root: int,
) -> bool {
    forall|i: int| 0 <= i <= root ==> values[i] == #[trigger] others[i] && wires[i] == strands[i]
}

/// Paths to a value do not depend on what comes after it.
proof fn lemma_path_up_to(
    values: Seq<Value>,
    wires: Seq<Seq<usize>>,
    others: Seq<Value>,
    strands: Seq<Seq<usize>>,
    root: int,
    at: int,
)
    requires
        same_up_to(values, wires, others, strands, root),
        0 <= at,
        on_path(values, wires, root, at),
    ensures
        on_path(others, strands, root, at),
    decreases root - at,
{
    if at != root {
        let (from, operand) = choose|from: int, operand: int|
            at < from <= root && #[trigger] passes(values, wires, from, operand, at) && on_path(
                values,
                wires,
                root,
                from,
            );
        assert(values[from] == others[from]);
        lemma_path_up_to(values, wires, others, strands, root, from);
        assert(passes(others, strands, from, operand, at));
    }
}

/// An obstacle does not depend on what comes after the root.
proof fn lemma_obstacle_up_to(
    values: Seq<Value>,
    wires: Seq<Seq<usize>>,
    others: Seq<Value>,
    strands: Seq<Seq<usize>>,
    root: int,
    at: int,
)
    requires
        same_up_to(values, wires, others, strands, root),
        obstacle(values, wires, root, at),
    ensures
        obstacle(others, strands, root, at),
{
    lemma_path_up_to(values, wires, others, strands, root, at);
    assert(values[at] == others[at]);
    assert forall|later: int|
        at < later <= root && #[trigger] on_path(others, strands, root, later) implies differentiable(
        others[later].op,
    ) by {
        assert(same_up_to(others, strands, values, wires, root)) by {
            assert forall|i: int| 0 <= i <= root implies others[i] == #[trigger] values[i]
                && strands[i] == wires[i] by {
                assert(values[i] == others[i]);
            }
        }
        lemma_path_up_to(others, strands, values, wires, root, later);
        assert(values[later] == others[later]);
    }
}

/// The refusal of a path does not depend on what comes after the root.
proof fn lemma_refusal_up_to(
    values: Seq<Value>,
    wires: Seq<Seq<usize>>,
    others: Seq<Value>,
    strands: Seq<Seq<usize>>,
    root: int,
)
    requires
        same_up_to(values, wires, others, strands, root),
    ensures
        path_refusal(values, wires, root) == path_refusal(others, strands, root),
{
    assert(same_up_to(others, strands, values, wires, root)) by {
        assert forall|i: int| 0 <= i <= root implies others[i] == #[trigger] values[i]
            && strands[i] == wires[i] by {
            assert(values[i] == others[i]);
        }
    }
    if exists|at: int| #[trigger] obstacle(values, wires, root, at) {
        let a = choose|at: int| #[trigger] obstacle(values, wires, root, at);
        lemma_obstacle_up_to(values, wires, others, strands, root, a);
        let b = choose|at: int| #[trigger] obstacle(others, strands, root, at);
        lemma_obstacle_up_to(others, strands, values, wires, root, b);
        assert(a == b);
        assert(values[a] == others[a]);
    } else if exists|at: int| #[trigger] obstacle(others, strands, root, at) {
        let b = choose|at: int| #[trigger] obstacle(others, strands, root, at);
        lemma_obstacle_up_to(others, strands, values, wires, root, b);
    }
}

/// Whether more positions are known, the first ones alike.
pub open spec fn lengthened(known: Known, more: Known) -> bool {
    &&& known.len() <= more.len()
    &&& forall|i: int| 0 <= i < known.len() ==> known[i] == #[trigger] more[i]
}

/// Whether two outcomes are alike but for further positions.
pub open spec fn lengthens(before: Result<Known, Error>, after: Result<Known, Error>) -> bool {
    match (before, after) {
        (Ok(a), Ok(b)) => lengthened(a, b),
        (Err(a), Err(b)) => a == b,
        _ => false,
    }
}

/// Adding contributions does not depend on further positions.
proof fn lemma_added_lengthened(
    known: Known,
    more: Known,
    wires: Seq<usize>,
    parts: Parts,
    count: nat,
)
    requires
        lengthened(known, more),
        count <= parts.len(),
        forall|k: int|
            0 <= k < parts.len() ==> wires[(#[trigger] parts[k]).0 as int] < known.len(),
    ensures
        lengthens(added(known, wires, parts, count), added(more, wires, parts, count)),
    decreases count,
{
    if count > 0 {
        let last = (count - 1) as nat;
        lemma_added_lengthened(known, more, wires, parts, last);
        lemma_added_length(known, wires, parts, last);
        match (added(known, wires, parts, last), added(more, wires, parts, last)) {
            (Ok(a), Ok(b)) => {
                let at = wires[parts[last as int].0 as int] as int;
                assert(0 <= at < a.len());
                assert(a[at] == b[at]);
            },
            _ => {},
        }
    }
}

/// A sweep does not depend on further positions.
proof fn lemma_swept_lengthened(
    values: Seq<Value>,
    wires: Seq<Seq<usize>>,
    others: Seq<Value>,
    strands: Seq<Seq<usize>>,
    graph: u64,
    root: int,
    known: Known,
    more: Known,
    count: nat,
)
    requires
        well_wired(values, wires, graph),
        shaped(known, values, wires, graph, root),
        same_up_to(values, wires, others, strands, root),
        lengthened(known, more),
        count <= root + 1,
        root < values.len(),
    ensures
        lengthens(swept(values, wires, known, count), swept(others, strands, more, count)),
    decreases count,
{
    if count > 0 {
        let at = count - 1;
        assert(values[at] == others[at]);
        assert(known[at] == more[at]);
        match known[at] {
            None => {
                lemma_swept_lengthened(
                    values,
                    wires,
                    others,
                    strands,
                    graph,
                    root,
                    known,
                    more,
                    at as nat,
                );
            },
            Some(dy) => {
                let v = values[at];
                let parts = rule(v, dy);
                assert(v.graph == graph);
                contributions_have_operand_extents(v, dy);
                assert forall|k: int| 0 <= k < parts.len() implies wires[at][(
                #[trigger] parts[k]).0 as int] < known.len() by {
                    assert(fits_operand(v, parts[k]));
                    assert(wires[at][parts[k].0 as int] < at);
                }
                lemma_added_lengthened(known, more, wires[at], parts, parts.len());
                lemma_stepped_shaped(known, values, wires, graph, root, at);
                match (stepped(known, wires[at], parts), stepped(more, wires[at], parts)) {
                    (Ok(a), Ok(b)) => {
                        lemma_swept_lengthened(
                            values,
                            wires,
                            others,
                            strands,
                            graph,
                            root,
                            a,
                            b,
                            at as nat,
                        );
                    },
                    _ => {},
                }
            },
        }
    }
}

/// Positions that nothing is known of contribute nothing.
proof fn lemma_swept_skips(
    values: Seq<Value>,
    wires: Seq<Seq<usize>>,
    known: Known,
    from: nat,
    to: nat,
)
    requires
        to <= from,
        forall|i: int| to <= i < from ==> (#[trigger] known[i]) is None,
    ensures
        swept(values, wires, known, from) == swept(values, wires, known, to),
    decreases from,
{
    if to < from {
        assert(known[from - 1] is None);
        lemma_swept_skips(values, wires, known, (from - 1) as nat, to);
    }
}

/// Gradients do not depend on what was recorded after the value they start
/// from.
pub proof fn gradients_do_not_depend_on_later_values(
    graph: Graph,
    later: Graph,
    loss: Tensor,
    inputs: Seq<Tensor>,
    cotangent: Value,
)
    requires
        graph.wf(),
        later.extends(graph),
        graph.owns(loss),
        graph.admits_all(inputs),
        cotangent.graph == loss@.graph,
        cotangent.dims == loss@.dims,
    ensures
        reverse_gradients(later, loss, inputs, Some(cotangent)) == reverse_gradients(
            graph,
            loss,
            inputs,
            Some(cotangent),
        ),
{
    let (values, wires) = (graph.model(), graph.wires());
    let (others, strands) = (later.model(), later.wires());
    let root = loss.id() as int;
    lemma_well_wired(graph);
    assert(same_up_to(values, wires, others, strands, root)) by {
        assert forall|i: int| 0 <= i <= root implies values[i] == #[trigger] others[i] && wires[i]
            == strands[i] by {
            assert(later.model()[i] == graph.model()[i]);
            assert(later.wires()[i] == graph.wires()[i]);
        }
    }
    lemma_refusal_up_to(values, wires, others, strands, root);
    if grad_refusal(graph, loss, values_of(inputs), Some(cotangent)) is None {
        let (known, more) = (
            seeded(values.len(), root, cotangent),
            seeded(others.len(), root, cotangent),
        );
        assert(shaped(known, values, wires, graph.key(), root));
        let count = (root + 1) as nat;
        lemma_swept_skips(values, wires, known, values.len(), count);
        lemma_swept_skips(others, strands, more, others.len(), count);
        lemma_swept_lengthened(
            values,
            wires,
            others,
            strands,
            graph.key(),
            root,
            known,
            more,
            count,
        );
        lemma_swept_shaped(known, values, wires, graph.key(), root, values.len());
        match (swept(values, wires, known, count), swept(others, strands, more, count)) {
            (Ok(a), Ok(b)) => {
                let (first, second) = (
                    requested(graph.key(), a, inputs),
                    requested(later.key(), b, inputs),
                );
                assert forall|k: int| 0 <= k < first.len() implies #[trigger] first[k]
                    == second[k] by {
                    lemma_leaf(loss@.graph, values_of(inputs), inputs.len(), k);
                    assert(graph.admits(inputs[k]));
                    assert(a[inputs[k].id() as int] == b[inputs[k].id() as int]);
                }
                assert(first =~= second);
            },
            _ => {},
        }
    }
}

/// Vector-Jacobian products that are taken one after the other, each after the
/// graph has grown, are linear in their cotangents all the same.
pub proof fn successive_gradients_are_linear_in_the_cotangent<A>(
    m: Mixture<A>,
    graph: Graph,
    grown: (Graph, Graph, Graph),
    loss: Tensor,
    inputs: Seq<Tensor>,
    mixed: Value,
    first: Value,
    second: Value,
)
    requires
        m.linear(),
        graph.wf(),
        grown.0.extends(graph),
        grown.1.extends(graph),
        grown.2.extends(graph),
        graph.owns(loss),
        graph.admits_all(inputs),
        mixed.graph == loss@.graph,
        mixed.dims == loss@.dims,
        similar(mixed, first, second),
        m.mixes(mixed, first, second),
    ensures
        m.gradients(
            reverse_gradients(grown.0, loss, inputs, Some(mixed)),
            reverse_gradients(grown.1, loss, inputs, Some(first)),
            reverse_gradients(grown.2, loss, inputs, Some(second)),
        ),
{
    gradients_do_not_depend_on_later_values(graph, grown.0, loss, inputs, mixed);
    gradients_do_not_depend_on_later_values(graph, grown.1, loss, inputs, first);
    gradients_do_not_depend_on_later_values(graph, grown.2, loss, inputs, second);
    gradients_are_linear_in_the_cotangent(m, graph, loss, inputs, mixed, first, second);
}

/// A fixed linear combination of two numbers, under an exact reading.
pub open spec fn exact_mixture(read: spec_fn(Element) -> real, s: real, t: real) -> Mixture<real> {
    Mixture { read, mix: |a: real, b: real| s * a + t * b }
}

/// In exact arithmetic, sums, differences, choices, and products with a common
/// factor keep linear combinations: the ring laws make those operations linear.
pub proof fn exact_arithmetic_keeps_mixtures(
    read: spec_fn(Element) -> real,
    s: real,
    t: real,
    z: Expr,
    x: Expr,
    y: Expr,
    u: Expr,
    v: Expr,
    w: Expr,
    other: Expr,
)
    requires
        reads_exactly(read),
        exact_mixture(read, s, t).relates(z, x, y),
        exact_mixture(read, s, t).relates(u, v, w),
    ensures
        exact_mixture(read, s, t).relates(z.add(u), x.add(v), y.add(w)),
        exact_mixture(read, s, t).relates(z.sub(u), x.sub(v), y.sub(w)),
        exact_mixture(read, s, t).relates(z.mul(other), x.mul(other), y.mul(other)),
        exact_mixture(read, s, t).relates(other.mul(z), other.mul(x), other.mul(y)),
        exact_mixture(read, s, t).relates(
            other.select(z, u),
            other.select(x, v),
            other.select(y, w),
        ),
{
    lemma_exact_pair(read, s, t, Binary::Add, z, x, y, u, v, w);
    lemma_exact_pair(read, s, t, Binary::Sub, z, x, y, u, v, w);
    lemma_exact_factor(read, s, t, z, x, y, other);
    lemma_exact_choice(read, s, t, z, x, y, u, v, w, other);
}

proof fn lemma_exact_pair(
    read: spec_fn(Element) -> real,
    s: real,
    t: real,
    op: Binary,
    z: Expr,
    x: Expr,
    y: Expr,
    u: Expr,
    v: Expr,
    w: Expr,
)
    requires
        reads_exactly(read),
        op == Binary::Add || op == Binary::Sub,
        exact_mixture(read, s, t).relates(z, x, y),
        exact_mixture(read, s, t).relates(u, v, w),
    ensures
        exact_mixture(read, s, t).relates(z.binary(u, op), x.binary(v, op), y.binary(w, op)),
{
    let m = exact_mixture(read, s, t);
    let (a, b, c) = (z.binary(u, op), x.binary(v, op), y.binary(w, op));
    lemma_alike_pairs(op, z, x, y, u, v, w);
    if a is Is {
        reveal(Mixture::mixes);
        assert forall|index: Seq<int>| within(a->Is_0.dims, index) implies #[trigger] m.element(
            a->Is_0,
            b->Is_0,
            c->Is_0,
            index,
        ) by {
            assert(m.element(z->Is_0, x->Is_0, y->Is_0, index));
            assert(m.element(u->Is_0, v->Is_0, w->Is_0, index));
            assert(exact_element(read, z, u, op, index));
            assert(exact_element(read, x, v, op, index));
            assert(exact_element(read, y, w, op, index));
            let (p, q) = (read(copied(x, index)), read(copied(y, index)));
            let (d, e) = (read(copied(v, index)), read(copied(w, index)));
            lemma_split(s, p, d);
            lemma_split(t, q, e);
        }
    }
}

/// Pairs of like operands have like outcomes.
proof fn lemma_alike_pairs(
    op: Binary,
    z: Expr,
    x: Expr,
    y: Expr,
    u: Expr,
    v: Expr,
    w: Expr,
)
    requires
        alike_exprs(z, x, y),
        alike_exprs(u, v, w),
    ensures
        alike_exprs(z.binary(u, op), x.binary(v, op), y.binary(w, op)),
        z.binary(u, op) is Is ==> z is Is && u is Is && z->Is_0.dims == u->Is_0.dims && z.binary(
            u,
            op,
        )->Is_0.dims == z->Is_0.dims,
{
    if z is Is && u is Is {
        let (first, second, third) = (
            seq![z->Is_0, u->Is_0],
            seq![x->Is_0, v->Is_0],
            seq![y->Is_0, w->Is_0],
        );
        assert(types_of(first) =~= types_of(second));
        assert(types_of(first) =~= types_of(third));
        reveal(applied);
    }
}

/// Whether three expressions fail alike or are similar values.
pub open spec fn alike_exprs(z: Expr, x: Expr, y: Expr) -> bool {
    match (z, x, y) {
        (Expr::Is(a), Expr::Is(b), Expr::Is(c)) => similar(a, b, c),
        (Expr::Fails(a), Expr::Fails(b), Expr::Fails(c)) => a == b && a == c,
        _ => false,
    }
}

proof fn lemma_exact_factor(
    read: spec_fn(Element) -> real,
    s: real,
    t: real,
    z: Expr,
    x: Expr,
    y: Expr,
    other: Expr,
)
    requires
        reads_exactly(read),
        exact_mixture(read, s, t).relates(z, x, y),
    ensures
        exact_mixture(read, s, t).relates(z.mul(other), x.mul(other), y.mul(other)),
        exact_mixture(read, s, t).relates(other.mul(z), other.mul(x), other.mul(y)),
{
    let m = exact_mixture(read, s, t);
    let op = Binary::Mul;
    lemma_alike_pairs(op, z, x, y, other, other, other);
    lemma_alike_pairs(op, other, other, other, z, x, y);
    reveal(Mixture::mixes);
    if z.mul(other) is Is {
        let (a, b, c) = (z.mul(other)->Is_0, x.mul(other)->Is_0, y.mul(other)->Is_0);
        assert forall|index: Seq<int>| within(a.dims, index) implies #[trigger] m.element(
            a,
            b,
            c,
            index,
        ) by {
            assert(m.element(z->Is_0, x->Is_0, y->Is_0, index));
            assert(exact_element(read, z, other, op, index));
            assert(exact_element(read, x, other, op, index));
            assert(exact_element(read, y, other, op, index));
            let (p, q) = (read(copied(x, index)), read(copied(y, index)));
            let k = read(copied(other, index));
            lemma_split(k, s * p, t * q);
            lemma_regroup(s, p, k);
            lemma_regroup(t, q, k);
        }
    }
    if other.mul(z) is Is {
        let (a, b, c) = (other.mul(z)->Is_0, other.mul(x)->Is_0, other.mul(y)->Is_0);
        assert forall|index: Seq<int>| within(a.dims, index) implies #[trigger] m.element(
            a,
            b,
            c,
            index,
        ) by {
            assert(m.element(z->Is_0, x->Is_0, y->Is_0, index));
            assert(exact_element(read, other, z, op, index));
            assert(exact_element(read, other, x, op, index));
            assert(exact_element(read, other, y, op, index));
            let (p, q) = (read(copied(x, index)), read(copied(y, index)));
            let k = read(copied(other, index));
            lemma_split(k, s * p, t * q);
            lemma_regroup(s, p, k);
            lemma_regroup(t, q, k);
        }
    }
}

proof fn lemma_exact_choice(
    read: spec_fn(Element) -> real,
    s: real,
    t: real,
    z: Expr,
    x: Expr,
    y: Expr,
    u: Expr,
    v: Expr,
    w: Expr,
    mask: Expr,
)
    requires
        reads_exactly(read),
        exact_mixture(read, s, t).relates(z, x, y),
        exact_mixture(read, s, t).relates(u, v, w),
    ensures
        exact_mixture(read, s, t).relates(mask.select(z, u), mask.select(x, v), mask.select(y, w)),
{
    let m = exact_mixture(read, s, t);
    let (a, b, c) = (mask.select(z, u), mask.select(x, v), mask.select(y, w));
    if mask is Is && z is Is && u is Is {
        let k = mask->Is_0;
        assert(types_of(seq![k, z->Is_0, u->Is_0]) =~= types_of(seq![k, x->Is_0, v->Is_0]));
        assert(types_of(seq![k, z->Is_0, u->Is_0]) =~= types_of(seq![k, y->Is_0, w->Is_0]));
        reveal(applied);
    }
    if a is Is {
        reveal(Mixture::mixes);
        assert forall|index: Seq<int>| within(a->Is_0.dims, index) implies #[trigger] m.element(
            a->Is_0,
            b->Is_0,
            c->Is_0,
            index,
        ) by {
            assert(m.element(z->Is_0, x->Is_0, y->Is_0, index));
            assert(m.element(u->Is_0, v->Is_0, w->Is_0, index));
            assert(selected_element(read, mask, z, u, index));
            assert(selected_element(read, mask, x, v, index));
            assert(selected_element(read, mask, y, w, index));
        }
    }
}

} // verus!
