//! Elementwise operations, broadcasts, reductions and scans.
use crate::dtype::DType;
use crate::error::{err, Error};
use crate::graph::{applied, scalar, Expr, Graph, Tensor};
use crate::op::{
    f32_nan, f32_order, is_finite, is_nan, order, Binary, Comparison, Op, OpModel, Reduction,
    Scalar, Unary, F32_HALF, F32_ONE, F32_ZERO,
};
use crate::shape::{
    axes_valid, axis_span, bad_shape, chosen, collapse_extents, collapsed, contains_extent, counted,
    distinct_axes, elements, gather_extents, gathered, is_permutation, keep_extents, kept,
    same_dims, sorted_axes, span, volume,
};
use vstd::prelude::*;

verus! {

/// The F32 value `1/sqrt(2)`.
pub const FRAC_1_SQRT_2: u32 = 0x3f35_04f3;

/// The F32 value `0.044715`.
pub const GELU_CUBIC: u32 = 0x3d37_2713;

/// The F32 value `sqrt(2/pi)`.
pub const SQRT_2_OVER_PI: u32 = 0x3f4c_422a;

impl Expr {
    /// An elementwise operation of one operand.
    pub open spec fn unary(self, op: Unary) -> Expr {
        match self {
            Expr::Fails(e) => Expr::Fails(e),
            Expr::Is(x) => applied(x.graph, OpModel::Unary(op), seq![x], x.dims),
        }
    }

    /// An operation of one operand that keeps its extents.
    pub open spec fn same_shaped(self, op: OpModel) -> Expr {
        match self {
            Expr::Fails(e) => Expr::Fails(e),
            Expr::Is(x) => applied(x.graph, op, seq![x], x.dims),
        }
    }

    /// An elementwise operation of two operands of equal extents.
    pub open spec fn binary(self, rhs: Expr, op: Binary) -> Expr {
        match (self, rhs) {
            (Expr::Fails(e), _) => Expr::Fails(e),
            (_, Expr::Fails(e)) => Expr::Fails(e),
            (Expr::Is(x), Expr::Is(y)) => if x.graph != y.graph {
                Expr::invalid("cross-graph operands")
            } else if x.dims != y.dims {
                Expr::invalid("elementwise shape mismatch; broadcasting must be explicit")
            } else {
                applied(x.graph, OpModel::Binary(op), seq![x, y], x.dims)
            },
        }
    }

    /// An elementwise comparison of two operands of equal extents.
    pub open spec fn compared(self, rhs: Expr, comparison: Comparison) -> Expr {
        match (self, rhs) {
            (Expr::Fails(e), _) => Expr::Fails(e),
            (_, Expr::Fails(e)) => Expr::Fails(e),
            (Expr::Is(x), Expr::Is(y)) => if x.graph != y.graph {
                Expr::invalid("cross-graph comparison operands")
            } else if x.dims != y.dims {
                Expr::invalid("comparison shape mismatch; broadcasting must be explicit")
            } else {
                applied(x.graph, OpModel::CompareMask(comparison), seq![x, y], x.dims)
            },
        }
    }

    /// Conversion to another element type; none where it is already that type.
    pub open spec fn cast(self, dtype: DType) -> Expr {
        match self {
            Expr::Fails(e) => Expr::Fails(e),
            Expr::Is(x) => if x.dtype == dtype {
                self
            } else {
                applied(x.graph, OpModel::Convert { dtype }, seq![x], x.dims)
            },
        }
    }

    /// Elementwise exponential.
    pub open spec fn exp(self) -> Expr {
        self.unary(Unary::Exp)
    }

    /// Gaussian error function.
    pub open spec fn erf(self) -> Expr {
        self.unary(Unary::Erf)
    }

    /// Round down toward negative infinity. Rounding operations stop the
    pub open spec fn floor(self) -> Expr {
        self.unary(Unary::Floor)
    }

    /// Round up toward positive infinity; same zero-gradient policy as `floor`.
    pub open spec fn ceil(self) -> Expr {
        self.unary(Unary::Ceil)
    }

    /// Round to the nearest integer, halfway cases away from zero.
    pub open spec fn round(self) -> Expr {
        self.unary(Unary::Round)
    }

    /// Round to the nearest integer, halfway cases to the even one.
    pub open spec fn round_ties_even(self) -> Expr {
        self.unary(Unary::RoundTiesEven)
    }

    /// Sine of angles in radians.
    pub open spec fn sin(self) -> Expr {
        self.unary(Unary::Sin)
    }

    /// Cosine of angles in radians.
    pub open spec fn cos(self) -> Expr {
        self.unary(Unary::Cos)
    }

    /// Natural logarithm.
    pub open spec fn log(self) -> Expr {
        self.unary(Unary::Log)
    }

    /// Natural logarithm of `1 + x`.
    pub open spec fn log1p(self) -> Expr {
        self.unary(Unary::Log1p)
    }

    /// `exp(x) - 1`.
    pub open spec fn expm1(self) -> Expr {
        self.unary(Unary::Expm1)
    }

    /// Absolute value.
    pub open spec fn abs(self) -> Expr {
        self.unary(Unary::Abs)
    }

    /// Negation.
    pub open spec fn neg(self) -> Expr {
        self.unary(Unary::Neg)
    }

    /// Square root.
    pub open spec fn sqrt(self) -> Expr {
        self.unary(Unary::Sqrt)
    }

    /// Reciprocal square root.
    pub open spec fn rsqrt(self) -> Expr {
        self.unary(Unary::Rsqrt)
    }

    /// Hyperbolic tangent.
    pub open spec fn tanh(self) -> Expr {
        self.unary(Unary::Tanh)
    }

    /// `max(x, 0)`, with gradient one for `x > 0` and zero otherwise.
    pub open spec fn relu(self) -> Expr {
        self.same_shaped(OpModel::Relu)
    }

    /// Stable `log(1 + exp(x))`.
    pub open spec fn softplus(self) -> Expr {
        self.same_shaped(OpModel::Softplus)
    }

    /// Logistic sigmoid.
    pub open spec fn sigmoid(self) -> Expr {
        self.same_shaped(OpModel::Sigmoid)
    }

    /// The same value with a reverse-mode gradient boundary.
    pub open spec fn detach(self) -> Expr {
        self.same_shaped(OpModel::StopGradient)
    }

    /// The value across an optimization boundary, with an identity derivative.
    pub open spec fn optimization_barrier(self) -> Expr {
        self.same_shaped(OpModel::OptimizationBarrier)
    }

    /// F32 mask: one for finite elements, zero for NaN and infinities.
    pub open spec fn is_finite_mask(self) -> Expr {
        self.same_shaped(OpModel::IsFiniteMask)
    }

    /// Elementwise sum.
    pub open spec fn add(self, rhs: Expr) -> Expr {
        self.binary(rhs, Binary::Add)
    }

    /// Elementwise difference.
    pub open spec fn sub(self, rhs: Expr) -> Expr {
        self.binary(rhs, Binary::Sub)
    }

    /// Elementwise product.
    pub open spec fn mul(self, rhs: Expr) -> Expr {
        self.binary(rhs, Binary::Mul)
    }

    /// Elementwise quotient.
    pub open spec fn div(self, rhs: Expr) -> Expr {
        self.binary(rhs, Binary::Div)
    }

    /// Elementwise maximum; backward splits ties equally.
    pub open spec fn maximum(self, rhs: Expr) -> Expr {
        self.binary(rhs, Binary::Maximum)
    }

    /// Elementwise minimum; backward splits ties equally.
    pub open spec fn minimum(self, rhs: Expr) -> Expr {
        self.binary(rhs, Binary::Minimum)
    }

    /// F32 equality mask: one where equal, zero elsewhere.
    pub open spec fn eq_mask(self, rhs: Expr) -> Expr {
        self.compared(rhs, Comparison::Equal)
    }

    /// F32 inequality mask.
    pub open spec fn ne_mask(self, rhs: Expr) -> Expr {
        self.compared(rhs, Comparison::NotEqual)
    }

    /// F32 less-than mask.
    pub open spec fn lt_mask(self, rhs: Expr) -> Expr {
        self.compared(rhs, Comparison::Less)
    }

    /// F32 greater-than mask.
    pub open spec fn gt_mask(self, rhs: Expr) -> Expr {
        self.compared(rhs, Comparison::Greater)
    }

    /// F32 greater-than-or-equal mask.
    pub open spec fn ge_mask(self, rhs: Expr) -> Expr {
        self.compared(rhs, Comparison::GreaterEqual)
    }

    /// The elementwise square.
    pub open spec fn square(self) -> Expr {
        self.mul(self)
    }

    /// One forward value whose cotangents go through another value.
    pub open spec fn with_gradient_of(self, surrogate: Expr) -> Expr {
        match (self, surrogate) {
            (Expr::Fails(e), _) => Expr::Fails(e),
            (_, Expr::Fails(e)) => Expr::Fails(e),
            (Expr::Is(x), Expr::Is(y)) => if x.graph != y.graph || x.dims != y.dims {
                Expr::invalid("gradient surrogate must match value graph and shape")
            } else {
                applied(x.graph, OpModel::WithGradient, seq![x, y], x.dims)
            },
        }
    }

    /// Less-or-equal, on I32 operands by integer comparison.
    pub open spec fn le_mask(self, rhs: Expr) -> Expr {
        match (self, rhs) {
            (Expr::Fails(e), _) => Expr::Fails(e),
            (_, Expr::Fails(e)) => Expr::Fails(e),
            (Expr::Is(x), Expr::Is(y)) => if x.dtype == DType::I32 && y.dtype == DType::I32 {
                if x.graph != y.graph || x.dims != y.dims {
                    Expr::invalid("integer comparison operands must match graph and shape")
                } else {
                    applied(x.graph, OpModel::IndexLessEqualMask, seq![x, y], x.dims)
                }
            } else {
                self.compared(rhs, Comparison::LessEqual)
            },
        }
    }

    /// Elementwise choice by an F32 mask.
    pub open spec fn select(self, on_true: Expr, on_false: Expr) -> Expr {
        match (self, on_true, on_false) {
            (Expr::Fails(e), _, _) => Expr::Fails(e),
            (_, Expr::Fails(e), _) => Expr::Fails(e),
            (_, _, Expr::Fails(e)) => Expr::Fails(e),
            (Expr::Is(m), Expr::Is(x), Expr::Is(y)) => if m.dtype != DType::F32 {
                Expr::invalid("select mask must be F32")
            } else if x.dtype != y.dtype {
                Expr::invalid("select branches must have the same dtype")
            } else if m.graph != x.graph {
                Expr::invalid("cross-graph select operands")
            } else if m.dims != x.dims {
                Expr::invalid("select shape mismatch; broadcasting must be explicit")
            } else if m.graph != y.graph {
                Expr::invalid("cross-graph select operands")
            } else if m.dims != y.dims {
                Expr::invalid("select shape mismatch; broadcasting must be explicit")
            } else {
                applied(m.graph, OpModel::Select, seq![m, x, y], m.dims)
            },
        }
    }

    /// The same elements under other extents.
    pub open spec fn reshape(self, dims: Seq<i64>) -> Expr {
        match self {
            Expr::Fails(e) => Expr::Fails(e),
            Expr::Is(x) => if volume(dims) is None {
                Expr::Fails(bad_shape())
            } else if volume(dims) != volume(x.dims) {
                Expr::invalid("reshape changes element count")
            } else {
                applied(x.graph, OpModel::Reshape, seq![x], dims)
            },
        }
    }

    /// Broadcast with the input's axes placed at the given target axes.
    pub open spec fn broadcast_in_dim(self, dims: Seq<i64>, axes: Seq<usize>) -> Expr {
        match self {
            Expr::Fails(e) => Expr::Fails(e),
            Expr::Is(x) => if volume(dims) is None {
                Expr::Fails(bad_shape())
            } else if axes.len() != x.dims.len() || !increasing(axes) {
                Expr::invalid("broadcast axes must be strictly increasing and match input rank")
            } else if !broadcasts(x.dims, dims, axes) {
                Expr::invalid("incompatible broadcast dimension")
            } else if dims == x.dims && axes == span(0, dims.len()) {
                self
            } else {
                applied(x.graph, OpModel::Broadcast { axes }, seq![x], dims)
            },
        }
    }

    /// Broadcast with trailing axes aligned.
    pub open spec fn broadcast_to(self, dims: Seq<i64>) -> Expr {
        match self {
            Expr::Fails(e) => Expr::Fails(e),
            Expr::Is(x) => if dims.len() < x.dims.len() {
                Expr::invalid("broadcast target rank is too small")
            } else {
                self.broadcast_in_dim(dims, span((dims.len() - x.dims.len()) as nat, dims.len()))
            },
        }
    }

    /// Broadcast to the extents of another value.
    pub open spec fn broadcast_as(self, target: Expr) -> Expr {
        match (self, target) {
            (Expr::Fails(e), _) => Expr::Fails(e),
            (_, Expr::Fails(e)) => Expr::Fails(e),
            (Expr::Is(x), Expr::Is(y)) => if x.graph != y.graph {
                Expr::invalid("broadcast target belongs to another graph")
            } else {
                self.broadcast_to(y.dims)
            },
        }
    }

    /// A scalar constant of the same graph, broadcast to the same extents.
    #[verifier::opaque]
    pub open spec fn filled(self, value: Scalar) -> Expr {
        match self {
            Expr::Fails(e) => Expr::Fails(e),
            Expr::Is(x) => scalar(x.graph, value).broadcast_to(x.dims),
        }
    }

    /// The sum with a scalar constant.
    #[verifier::opaque]
    pub open spec fn add_scalar(self, value: Scalar) -> Expr {
        self.add(self.filled(value))
    }

    /// The product with a scalar constant.
    #[verifier::opaque]
    pub open spec fn mul_scalar(self, value: Scalar) -> Expr {
        self.mul(self.filled(value))
    }

    /// Clamp to the interval between two F32 values.
    pub open spec fn clamp(self, low: u32, high: u32) -> Expr {
        match self {
            Expr::Fails(e) => Expr::Fails(e),
            Expr::Is(x) => if f32_nan(low) || f32_nan(high) || f32_order(low) > f32_order(high) {
                Expr::invalid("clamp requires ordered non-NaN bounds")
            } else {
                let floor = self.filled(Scalar::Bits(low));
                let ceiling = self.filled(Scalar::Bits(high));
                let bounded = self.maximum(floor).minimum(ceiling).given(ceiling).given(floor);
                if f32_order(low) == f32_order(high) {
                    bounded.detach()
                } else {
                    bounded
                }
            },
        }
    }

    /// `clamp(alpha * x + beta, 0, 1)`.
    pub open spec fn hard_sigmoid(self, alpha: u32, beta: u32) -> Expr {
        match self {
            Expr::Fails(e) => Expr::Fails(e),
            Expr::Is(x) => if !crate::op::f32_finite(alpha) || !crate::op::f32_finite(beta) {
                Expr::invalid("hard_sigmoid requires finite coefficients")
            } else {
                self.mul_scalar(Scalar::Bits(alpha)).add_scalar(Scalar::Bits(beta)).clamp(
                    F32_ZERO,
                    F32_ONE,
                )
            },
        }
    }

    /// `x * sigmoid(x)`.
    pub open spec fn silu(self) -> Expr {
        self.mul(self.sigmoid())
    }

    /// `0.5 * x * (1 + erf(x / sqrt(2)))`.
    pub open spec fn gelu(self) -> Expr {
        self.mul_scalar(Scalar::Bits(F32_HALF)).mul(
            self.mul_scalar(Scalar::Bits(FRAC_1_SQRT_2)).erf().add_scalar(Scalar::Bits(F32_ONE)),
        )
    }

    /// `0.5 * x * (1 + tanh(sqrt(2/pi) * (x + 0.044715 * x^3)))`.
    pub open spec fn gelu_tanh(self) -> Expr {
        let cubic = self.square().mul(self).mul_scalar(Scalar::Bits(GELU_CUBIC));
        let gate = self.add(cubic).mul_scalar(
            Scalar::Bits(SQRT_2_OVER_PI),
        ).tanh().add_scalar(Scalar::Bits(F32_ONE));
        self.mul_scalar(Scalar::Bits(F32_HALF)).mul(gate).given(gate)
    }

    /// Element order reversed along axes.
    pub open spec fn flip(self, axes: Seq<usize>) -> Expr {
        match self {
            Expr::Fails(e) => Expr::Fails(e),
            Expr::Is(x) => if !axes_valid(axes, x.dims.len()) {
                Expr::invalid("flip axes must be distinct and in range")
            } else if axes.len() == 0 {
                self
            } else {
                applied(
                    x.graph,
                    OpModel::Reverse { axes: chosen(x.dims.len(), axes) },
                    seq![x],
                    x.dims,
                )
            },
        }
    }

    /// Axes rearranged: target axis `i` is source axis `permutation[i]`.
    pub open spec fn transpose(self, permutation: Seq<usize>) -> Expr {
        match self {
            Expr::Fails(e) => Expr::Fails(e),
            Expr::Is(x) => if !is_permutation(permutation, x.dims.len()) {
                Expr::invalid("invalid transpose permutation")
            } else {
                applied(
                    x.graph,
                    OpModel::Transpose { permutation },
                    seq![x],
                    gathered(x.dims, permutation),
                )
            },
        }
    }

    /// Reduction over axes, keeping them as singletons on request.
    #[verifier::opaque]
    pub open spec fn reduce(self, kind: Reduction, axes: Seq<usize>, keepdims: bool) -> Expr {
        match self {
            Expr::Fails(e) => Expr::Fails(e),
            Expr::Is(x) => if !axes_valid(axes, x.dims.len()) {
                Expr::invalid("invalid reduction axes")
            } else if axes.len() == 0 {
                self
            } else {
                let reduced = applied(
                    x.graph,
                    OpModel::Reduce { kind, axes: chosen(x.dims.len(), axes) },
                    seq![x],
                    kept(x.dims, axes),
                );
                if keepdims {
                    reduced.reshape(collapsed(x.dims, axes))
                } else {
                    reduced
                }
            },
        }
    }

    /// Sum over axes.
    pub open spec fn sum(self, axes: Seq<usize>, keepdims: bool) -> Expr {
        self.reduce(Reduction::Sum, axes, keepdims)
    }

    /// Maximum over axes.
    pub open spec fn max(self, axes: Seq<usize>, keepdims: bool) -> Expr {
        self.reduce(Reduction::Maximum, axes, keepdims)
    }

    /// Minimum over axes, as `-max(-x)`; the input itself over no axes.
    pub open spec fn min(self, axes: Seq<usize>, keepdims: bool) -> Expr {
        if axes.len() == 0 {
            self
        } else {
            self.neg().max(axes, keepdims).neg()
        }
    }

    /// Inclusive prefix sums along one axis.
    pub open spec fn cumsum(self, axis: usize) -> Expr {
        match self {
            Expr::Fails(e) => Expr::Fails(e),
            Expr::Is(x) => if axis >= x.dims.len() {
                Expr::invalid("cumsum axis out of range")
            } else if x.dims[axis as int] <= 1 || x.dims.contains(0) {
                self
            } else if 2 * x.dims[axis as int] - 1 > i64::MAX {
                Expr::invalid("cumsum padded extent overflows I64")
            } else {
                applied(x.graph, OpModel::Cumsum { axis }, seq![x], x.dims)
            },
        }
    }

    /// Mean over axes: the sum times the reciprocal of the element count.
    #[verifier::opaque]
    pub open spec fn mean(self, axes: Seq<usize>, keepdims: bool) -> Expr {
        match (self, self.sum(axes, keepdims)) {
            (Expr::Fails(e), _) => Expr::Fails(e),
            (_, Expr::Fails(e)) => Expr::Fails(e),
            (Expr::Is(x), Expr::Is(total)) => match counted(gathered(x.dims, axes)) {
                Err(e) => Expr::Fails(e),
                Ok(count) => if count == 0 {
                    Expr::invalid("mean over empty dimensions is undefined")
                } else {
                    Expr::Is(total).mul_scalar(Scalar::Reciprocal { count: count as u64 })
                },
            },
        }
    }

    /// Softmax along a nonempty axis, shifted by the detached maximum.
    #[verifier::opaque]
    pub open spec fn softmax(self, axis: usize) -> Expr {
        match self {
            Expr::Fails(e) => Expr::Fails(e),
            Expr::Is(x) => if axis >= x.dims.len() || x.dims[axis as int] == 0 {
                Expr::invalid("softmax requires nonempty valid axis")
            } else {
                let e = self.sub(
                    self.max(seq![axis], true).detach().broadcast_to(x.dims),
                ).exp();
                e.div(e.sum(seq![axis], true).broadcast_to(x.dims))
            },
        }
    }

    /// Log probabilities along a nonempty axis.
    #[verifier::opaque]
    pub open spec fn log_softmax(self, axis: usize) -> Expr {
        match self {
            Expr::Fails(e) => Expr::Fails(e),
            Expr::Is(x) => if axis >= x.dims.len() || x.dims[axis as int] == 0 {
                Expr::invalid("log_softmax requires nonempty valid axis")
            } else {
                let centered = self.sub(
                    self.max(seq![axis], true).detach().broadcast_to(x.dims),
                );
                let normalizer = centered.exp().sum(seq![axis], true).log();
                centered.sub(normalizer.broadcast_to(x.dims))
            },
        }
    }
}

/// Whether the axes are strictly increasing.
pub open spec fn increasing(axes: Seq<usize>) -> bool {
    forall|i: int| 0 <= i < axes.len() - 1 ==> #[trigger] axes[i] < axes[i + 1]
}

/// Whether every input extent is one or equals the target extent at its axis.
pub open spec fn broadcasts(from: Seq<i64>, to: Seq<i64>, axes: Seq<usize>) -> bool {
    forall|i: int|
        0 <= i < axes.len() ==> (#[trigger] axes[i]) < to.len() && (from[i] == 1 || from[i]
            == to[axes[i] as int])
}

/// Whether the axes are strictly increasing.
fn strictly_increasing(axes: &[usize]) -> (r: bool)
    ensures
        r == increasing(axes@),
{
    let mut i: usize = 1;
    while i < axes.len()
        invariant
            1 <= i,
            i <= axes@.len() || axes@.len() == 0,
            forall|j: int| 0 <= j < i - 1 ==> #[trigger] axes@[j] < axes@[j + 1],
        decreases axes@.len() - i,
    {
        if axes[i - 1] >= axes[i] {
            assert(axes@[i - 1] >= axes@[i - 1 + 1]);
            return false;
        }
        i += 1;
    }
    true
}

/// Whether every input extent is one or equals the target extent at its axis.
fn broadcast_compatible(from: &[i64], to: &[i64], axes: &[usize]) -> (r: bool)
    requires
        axes@.len() == from@.len(),
    ensures
        r == broadcasts(from@, to@, axes@),
{
    let mut i: usize = 0;
    while i < axes.len()
        invariant
            axes@.len() == from@.len(),
            i <= axes@.len(),
            forall|j: int|
                0 <= j < i ==> (#[trigger] axes@[j]) < to@.len() && (from@[j] == 1 || from@[j]
                    == to@[axes@[j] as int]),
        decreases axes@.len() - i,
    {
        let axis: usize = axes[i];
        if axis >= to.len() || (from[i] != 1 && from[i] != to[axis]) {
            assert(axes@[i as int] == axis);
            return false;
        }
        i += 1;
    }
    true
}

/// Whether the axes are `0..rank`.
fn is_span(axes: &[usize], rank: usize) -> (r: bool)
    ensures
        r == (axes@ == span(0, rank as nat)),
{
    if axes.len() != rank {
        assert(axes@.len() != span(0, rank as nat).len());
        return false;
    }
    let mut i: usize = 0;
    while i < axes.len()
        invariant
            axes@.len() == rank,
            i <= axes@.len(),
            forall|j: int| 0 <= j < i ==> #[trigger] axes@[j] == j,
        decreases axes@.len() - i,
    {
        if axes[i] != i {
            assert(axes@[i as int] != span(0, rank as nat)[i as int]);
            return false;
        }
        i += 1;
    }
    assert(axes@ =~= span(0, rank as nat));
    true
}

impl Tensor {
    /// An elementwise operation of one operand.
    pub(crate) fn unary(
        &self,
        graph: &mut Graph,
        op: Unary,
    ) -> (r: Result<Tensor, Error>)
        requires
            old(graph).wf(),
            old(graph).owns(*self),
        ensures
            final(graph).extends(*old(graph)),
            final(graph).yields(r, self.expr().unary(op)),
            final(graph).records(*old(graph), r),
    {
        graph.node1(Op::Unary(op), self, self.shape())
    }

    /// An elementwise operation of two operands.
    pub(crate) fn binary(
        &self,
        graph: &mut Graph,
        rhs: &Tensor,
        op: Binary,
    ) -> (r: Result<Tensor, Error>)
        requires
            old(graph).wf(),
            old(graph).owns(*self),
            old(graph).admits(*rhs),
        ensures
            final(graph).extends(*old(graph)),
            final(graph).yields(r, self.expr().binary(rhs.expr(), op)),
            final(graph).records(*old(graph), r),
    {
        if !self.same_graph(rhs) {
            return Err(err("cross-graph operands"));
        }
        if !same_dims(self.shape(), rhs.shape()) {
            return Err(err("elementwise shape mismatch; broadcasting must be explicit"));
        }
        graph.node2(Op::Binary(op), self, rhs, self.shape())
    }

    /// An elementwise comparison.
    fn compare_mask(
        &self,
        graph: &mut Graph,
        rhs: &Tensor,
        comparison: Comparison,
    ) -> (r: Result<Tensor, Error>)
        requires
            old(graph).wf(),
            old(graph).owns(*self),
            old(graph).admits(*rhs),
        ensures
            final(graph).extends(*old(graph)),
            final(graph).yields(r, self.expr().compared(rhs.expr(), comparison)),
            final(graph).records(*old(graph), r),
    {
        if !self.same_graph(rhs) {
            return Err(err("cross-graph comparison operands"));
        }
        if !same_dims(self.shape(), rhs.shape()) {
            return Err(err("comparison shape mismatch; broadcasting must be explicit"));
        }
        graph.node2(Op::CompareMask(comparison), self, rhs, self.shape())
    }

    /// F32 less-than-or-equal mask; I32 operands are compared as integers.
    pub fn le_mask(
        &self,
        graph: &mut Graph,
        rhs: &Tensor,
    ) -> (r: Result<Tensor, Error>)
        requires
            old(graph).wf(),
            old(graph).owns(*self),
            old(graph).admits(*rhs),
        ensures
            final(graph).extends(*old(graph)),
            final(graph).yields(r, self.expr().le_mask(rhs.expr())),
            final(graph).records(*old(graph), r),
    {
        if self.dtype() == DType::I32 && rhs.dtype() == DType::I32 {
            if !self.same_graph(rhs) || !same_dims(self.shape(), rhs.shape()) {
                return Err(err("integer comparison operands must match graph and shape"));
            }
            return graph.node2(Op::IndexLessEqualMask, self, rhs, self.shape());
        }
        self.compare_mask(graph, rhs, Comparison::LessEqual)
    }

    /// Explicit element conversion. No promotion is ever implicit.
    pub fn cast(
        &self,
        graph: &mut Graph,
        dtype: DType,
    ) -> (r: Result<Tensor, Error>)
        requires
            old(graph).wf(),
            old(graph).owns(*self),
        ensures
            final(graph).extends(*old(graph)),
            final(graph).yields(r, self.expr().cast(dtype)),
            final(graph).keeps_or_records(*old(graph), r),
    {
        if dtype == self.dtype() {
            return Ok(self.copy());
        }
        graph.node1(Op::Convert { dtype }, self, self.shape())
    }

    /// Preserve this forward value, but route reverse-mode cotangents through
    /// `surrogate` instead. Both must have the same extents and graph.
    pub fn with_gradient_of(
        &self,
        graph: &mut Graph,
        surrogate: &Tensor,
    ) -> (r: Result<Tensor, Error>)
        requires
            old(graph).wf(),
            old(graph).owns(*self),
            old(graph).admits(*surrogate),
        ensures
            final(graph).extends(*old(graph)),
            final(graph).yields(r, self.expr().with_gradient_of(surrogate.expr())),
            final(graph).records(*old(graph), r),
    {
        if !self.same_graph(surrogate) || !same_dims(self.shape(), surrogate.shape()) {
            return Err(err("gradient surrogate must match value graph and shape"));
        }
        graph.node2(Op::WithGradient, self, surrogate, self.shape())
    }

    /// Elementwise choice using this F32 mask: zero selects `on_false`, every
    /// other value selects `on_true`. Neither branch is lazy.
    pub fn select(
        &self,
        graph: &mut Graph,
        on_true: &Tensor,
        on_false: &Tensor,
    ) -> (r: Result<Tensor, Error>)
        requires
            old(graph).wf(),
            old(graph).owns(*self),
            old(graph).admits(*on_true),
            old(graph).admits(*on_false),
        ensures
            final(graph).extends(*old(graph)),
            final(graph).yields(r, self.expr().select(on_true.expr(), on_false.expr())),
            final(graph).records(*old(graph), r),
    {
        if self.dtype() != DType::F32 {
            return Err(err("select mask must be F32"));
        }
        if on_true.dtype() != on_false.dtype() {
            return Err(err("select branches must have the same dtype"));
        }
        if !self.same_graph(on_true) {
            return Err(err("cross-graph select operands"));
        }
        if !same_dims(self.shape(), on_true.shape()) {
            return Err(err("select shape mismatch; broadcasting must be explicit"));
        }
        if !self.same_graph(on_false) {
            return Err(err("cross-graph select operands"));
        }
        if !same_dims(self.shape(), on_false.shape()) {
            return Err(err("select shape mismatch; broadcasting must be explicit"));
        }
        graph.node3(Op::Select, self, on_true, on_false, self.shape())
    }

    /// The elementwise square.
    pub fn square(
        &self,
        graph: &mut Graph,
    ) -> (r: Result<Tensor, Error>)
        requires
            old(graph).wf(),
            old(graph).owns(*self),
        ensures
            final(graph).extends(*old(graph)),
            final(graph).yields(r, self.expr().square()),
            final(graph).records(*old(graph), r),
    {
        self.mul(graph, self)
    }

    /// The same elements, in row-major order, under other extents.
    pub fn reshape(
        &self,
        graph: &mut Graph,
        dims: &[i64],
    ) -> (r: Result<Tensor, Error>)
        requires
            old(graph).wf(),
            old(graph).owns(*self),
        ensures
            final(graph).extends(*old(graph)),
            final(graph).yields(r, self.expr().reshape(dims@)),
            final(graph).records(*old(graph), r),
    {
        let target: usize = match elements(dims) {
            Err(e) => {
                return Err(e);
            },
            Ok(count) => count,
        };
        let source: usize = match elements(self.shape()) {
            Err(e) => {
                return Err(e);
            },
            Ok(count) => count,
        };
        if target != source {
            return Err(err("reshape changes element count"));
        }
        graph.node1(Op::Reshape, self, dims)
    }

    /// Broadcast with the axes of this tensor placed at the given, strictly
    /// increasing target axes.
    pub fn broadcast_in_dim(
        &self,
        graph: &mut Graph,
        dims: &[i64],
        axes: &[usize],
    ) -> (r: Result<Tensor, Error>)
        requires
            old(graph).wf(),
            old(graph).owns(*self),
        ensures
            final(graph).extends(*old(graph)),
            final(graph).yields(r, self.expr().broadcast_in_dim(dims@, axes@)),
            final(graph).keeps_or_records(*old(graph), r),
    {
        match elements(dims) {
            Err(e) => {
                return Err(e);
            },
            Ok(_) => {},
        }
        let rank: usize = self.shape().len();
        if axes.len() != rank || !strictly_increasing(axes) {
            return Err(err("broadcast axes must be strictly increasing and match input rank"));
        }
        if !broadcast_compatible(self.shape(), dims, axes) {
            return Err(err("incompatible broadcast dimension"));
        }
        if same_dims(dims, self.shape()) && is_span(axes, dims.len()) {
            return Ok(self.copy());
        }
        graph.node1(Op::Broadcast { axes: vstd::slice::slice_to_vec(axes) }, self, dims)
    }

    /// Broadcast using trailing-axis alignment. Singleton axes can expand.
    pub fn broadcast_to(
        &self,
        graph: &mut Graph,
        dims: &[i64],
    ) -> (r: Result<Tensor, Error>)
        requires
            old(graph).wf(),
            old(graph).owns(*self),
        ensures
            final(graph).extends(*old(graph)),
            final(graph).yields(r, self.expr().broadcast_to(dims@)),
            final(graph).keeps_or_records(*old(graph), r),
    {
        let rank: usize = self.shape().len();
        if dims.len() < rank {
            return Err(err("broadcast target rank is too small"));
        }
        let offset: usize = dims.len() - rank;
        let axes: Vec<usize> = axis_span(offset, dims.len());
        self.broadcast_in_dim(graph, dims, axes.as_slice())
    }

    /// Broadcast an operand that may belong to another graph, in which case
    /// nothing is recorded and the mix of graphs is refused.
    pub(crate) fn broadcast_operand(
        &self,
        graph: &mut Graph,
        dims: &[i64],
    ) -> (r: Result<Tensor, Error>)
        requires
            old(graph).wf(),
            old(graph).admits(*self),
        ensures
            final(graph).extends(*old(graph)),
            match r {
                Ok(t) => final(graph).owns(t) && self.expr().broadcast_to(dims@) == Expr::Is(t@),
                Err(e) => match self.expr().broadcast_to(dims@) {
                    Expr::Fails(f) => e == f,
                    Expr::Is(v) => v.graph == self@.graph && v.dims == dims@ && self@.graph
                        != old(graph).key() && e == crate::error::invalid("cross-graph operands"),
                },
            },
    {
        if self.graph_id() == graph.id() {
            return self.broadcast_to(graph, dims);
        }
        proof {
            reveal(applied);
        }
        let rank: usize = self.shape().len();
        if dims.len() < rank {
            return Err(err("broadcast target rank is too small"));
        }
        let offset: usize = dims.len() - rank;
        let axes: Vec<usize> = axis_span(offset, dims.len());
        match elements(dims) {
            Err(e) => {
                return Err(e);
            },
            Ok(_) => {},
        }
        proof {
            assert(increasing(axes@)) by {
                assert forall|i: int| 0 <= i < axes@.len() - 1 implies #[trigger] axes@[i] < axes@[i
                    + 1] by {}
            }
        }
        if !broadcast_compatible(self.shape(), dims, axes.as_slice()) {
            return Err(err("incompatible broadcast dimension"));
        }
        Err(err("cross-graph operands"))
    }

    /// Broadcast to another tensor's extents.
    pub fn broadcast_as(
        &self,
        graph: &mut Graph,
        target: &Tensor,
    ) -> (r: Result<Tensor, Error>)
        requires
            old(graph).wf(),
            old(graph).owns(*self),
            old(graph).admits(*target),
        ensures
            final(graph).extends(*old(graph)),
            final(graph).yields(r, self.expr().broadcast_as(target.expr())),
            final(graph).keeps_or_records(*old(graph), r),
    {
        if !self.same_graph(target) {
            return Err(err("broadcast target belongs to another graph"));
        }
        self.broadcast_to(graph, target.shape())
    }

    /// A scalar constant broadcast to the extents of this tensor.
    pub(crate) fn filled(
        &self,
        graph: &mut Graph,
        value: Scalar,
    ) -> (r: Result<Tensor, Error>)
        requires
            old(graph).wf(),
            old(graph).owns(*self),
        ensures
            final(graph).extends(*old(graph)),
            final(graph).yields(r, self.expr().filled(value)),
    {
        proof {
            reveal(Expr::filled);
        }
        let constant: Tensor = graph.scalar(value)?;
        constant.broadcast_to(graph, self.shape())
    }

    /// The sum with a scalar constant.
    pub fn add_scalar(
        &self,
        graph: &mut Graph,
        value: Scalar,
    ) -> (r: Result<Tensor, Error>)
        requires
            old(graph).wf(),
            old(graph).owns(*self),
        ensures
            final(graph).extends(*old(graph)),
            final(graph).yields(r, self.expr().add_scalar(value)),
    {
        proof {
            reveal(Expr::add_scalar);
            reveal(Expr::filled);
        }
        let constant: Tensor = graph.scalar(value)?;
        let addend: Tensor = constant.broadcast_as(graph, self)?;
        self.add(graph, &addend)
    }

    /// The product with a scalar constant.
    pub fn mul_scalar(
        &self,
        graph: &mut Graph,
        value: Scalar,
    ) -> (r: Result<Tensor, Error>)
        requires
            old(graph).wf(),
            old(graph).owns(*self),
        ensures
            final(graph).extends(*old(graph)),
            final(graph).yields(r, self.expr().mul_scalar(value)),
    {
        proof {
            reveal(Expr::mul_scalar);
            reveal(Expr::filled);
        }
        let constant: Tensor = graph.scalar(value)?;
        let factor: Tensor = constant.broadcast_as(graph, self)?;
        self.mul(graph, &factor)
    }

    /// Clamp elementwise to an ordered interval, whose bounds are given by
    /// their F32 bits. Infinite bounds are allowed; NaN bounds and reversed
    /// intervals are rejected. Equal bounds stop gradients.
    pub fn clamp(
        &self,
        graph: &mut Graph,
        low: u32,
        high: u32,
    ) -> (r: Result<Tensor, Error>)
        requires
            old(graph).wf(),
            old(graph).owns(*self),
        ensures
            final(graph).extends(*old(graph)),
            final(graph).yields(r, self.expr().clamp(low, high)),
    {
        if is_nan(low) || is_nan(high) || order(low) > order(high) {
            return Err(err("clamp requires ordered non-NaN bounds"));
        }
        let equal_bounds: bool = order(low) == order(high);
        let low: Tensor = self.filled(graph, Scalar::Bits(low))?;
        let high: Tensor = self.filled(graph, Scalar::Bits(high))?;
        let result: Tensor = self.maximum(graph, &low)?.minimum(graph, &high)?;
        if equal_bounds {
            result.detach(graph)
        } else {
            Ok(result)
        }
    }

    /// `clamp(alpha * x + beta, 0, 1)` with finite coefficients.
    pub fn hard_sigmoid(
        &self,
        graph: &mut Graph,
        alpha: u32,
        beta: u32,
    ) -> (r: Result<Tensor, Error>)
        requires
            old(graph).wf(),
            old(graph).owns(*self),
        ensures
            final(graph).extends(*old(graph)),
            final(graph).yields(r, self.expr().hard_sigmoid(alpha, beta)),
    {
        proof {
            reveal(Expr::add_scalar);
            reveal(Expr::mul_scalar);
        }
        if !is_finite(alpha) || !is_finite(beta) {
            return Err(err("hard_sigmoid requires finite coefficients"));
        }
        let scaled: Tensor = self.mul_scalar(graph, Scalar::Bits(alpha))?;
        let shifted: Tensor = scaled.add_scalar(graph, Scalar::Bits(beta))?;
        shifted.clamp(graph, F32_ZERO, F32_ONE)
    }

    /// `x * sigmoid(x)`.
    pub fn silu(
        &self,
        graph: &mut Graph,
    ) -> (r: Result<Tensor, Error>)
        requires
            old(graph).wf(),
            old(graph).owns(*self),
        ensures
            final(graph).extends(*old(graph)),
            final(graph).yields(r, self.expr().silu()),
    {
        let gate: Tensor = self.sigmoid(graph)?;
        self.mul(graph, &gate)
    }

    /// GELU by the error function: `0.5 * x * (1 + erf(x / sqrt(2)))`.
    pub fn gelu(
        &self,
        graph: &mut Graph,
    ) -> (r: Result<Tensor, Error>)
        requires
            old(graph).wf(),
            old(graph).owns(*self),
        ensures
            final(graph).extends(*old(graph)),
            final(graph).yields(r, self.expr().gelu()),
    {
        proof {
            reveal(Expr::add_scalar);
            reveal(Expr::mul_scalar);
        }
        let half: Tensor = self.mul_scalar(graph, Scalar::Bits(F32_HALF))?;
        let scaled: Tensor = self.mul_scalar(graph, Scalar::Bits(FRAC_1_SQRT_2))?;
        let gate: Tensor = scaled.erf(graph)?.add_scalar(graph, Scalar::Bits(F32_ONE))?;
        half.mul(graph, &gate)
    }

    /// GELU by hyperbolic tangent:
    /// `0.5 * x * (1 + tanh(sqrt(2/pi) * (x + 0.044715 * x^3)))`.
    pub fn gelu_tanh(
        &self,
        graph: &mut Graph,
    ) -> (r: Result<Tensor, Error>)
        requires
            old(graph).wf(),
            old(graph).owns(*self),
        ensures
            final(graph).extends(*old(graph)),
            final(graph).yields(r, self.expr().gelu_tanh()),
    {
        proof {
            reveal(Expr::add_scalar);
            reveal(Expr::mul_scalar);
        }
        let squared: Tensor = self.square(graph)?;
        let cubic: Tensor = squared.mul(graph, self)?.mul_scalar(graph, Scalar::Bits(GELU_CUBIC))?;
        let inner: Tensor = self.add(graph, &cubic)?;
        let gate: Tensor = inner.mul_scalar(graph, Scalar::Bits(SQRT_2_OVER_PI))?.tanh(
            graph,
        )?.add_scalar(graph, Scalar::Bits(F32_ONE))?;
        let half: Tensor = self.mul_scalar(graph, Scalar::Bits(F32_HALF))?;
        half.mul(graph, &gate)
    }

    /// Reverse element order along distinct axes. No axes are a no-op.
    pub fn flip(
        &self,
        graph: &mut Graph,
        axes: &[usize],
    ) -> (r: Result<Tensor, Error>)
        requires
            old(graph).wf(),
            old(graph).owns(*self),
        ensures
            final(graph).extends(*old(graph)),
            final(graph).yields(r, self.expr().flip(axes@)),
            final(graph).keeps_or_records(*old(graph), r),
    {
        let rank: usize = self.shape().len();
        if !distinct_axes(axes, rank) {
            return Err(err("flip axes must be distinct and in range"));
        }
        if axes.len() == 0 {
            return Ok(self.copy());
        }
        graph.node1(Op::Reverse { axes: sorted_axes(rank, axes) }, self, self.shape())
    }

    /// Rearrange axes: axis `i` of the result is axis `permutation[i]`.
    pub fn transpose(
        &self,
        graph: &mut Graph,
        permutation: &[usize],
    ) -> (r: Result<Tensor, Error>)
        requires
            old(graph).wf(),
            old(graph).owns(*self),
        ensures
            final(graph).extends(*old(graph)),
            final(graph).yields(r, self.expr().transpose(permutation@)),
            final(graph).records(*old(graph), r),
    {
        let rank: usize = self.shape().len();
        if permutation.len() != rank || !distinct_axes(permutation, rank) {
            return Err(err("invalid transpose permutation"));
        }
        let dims: Vec<i64> = gather_extents(self.shape(), permutation);
        graph.node1(
            Op::Transpose { permutation: vstd::slice::slice_to_vec(permutation) },
            self,
            dims.as_slice(),
        )
    }

    /// Reduction over distinct axes; over no axes, the input itself.
    fn reduce(
        &self,
        graph: &mut Graph,
        axes: &[usize],
        keepdims: bool,
        kind: Reduction,
    ) -> (r: Result<Tensor, Error>)
        requires
            old(graph).wf(),
            old(graph).owns(*self),
        ensures
            final(graph).extends(*old(graph)),
            final(graph).yields(r, self.expr().reduce(kind, axes@, keepdims)),
    {
        proof {
            reveal(Expr::reduce);
        }
        let rank: usize = self.shape().len();
        if !distinct_axes(axes, rank) {
            return Err(err("invalid reduction axes"));
        }
        if axes.len() == 0 {
            return Ok(self.copy());
        }
        let dims: Vec<i64> = keep_extents(self.shape(), axes);
        proof {
            crate::shape::lemma_chosen(self@.dims, axes@);
        }
        let sorted: Vec<usize> = sorted_axes(rank, axes);
        let output: Tensor = graph.node1(Op::Reduce { kind, axes: sorted }, self, dims.as_slice())?;
        if keepdims {
            let singletons: Vec<i64> = collapse_extents(self.shape(), axes);
            output.reshape(graph, singletons.as_slice())
        } else {
            Ok(output)
        }
    }

    /// Sum over explicit axes.
    pub fn sum(
        &self,
        graph: &mut Graph,
        axes: &[usize],
        keepdims: bool,
    ) -> (r: Result<Tensor, Error>)
        requires
            old(graph).wf(),
            old(graph).owns(*self),
        ensures
            final(graph).extends(*old(graph)),
            final(graph).yields(r, self.expr().sum(axes@, keepdims)),
    {
        self.reduce(graph, axes, keepdims, Reduction::Sum)
    }

    /// Maximum over explicit axes. Reverse mode divides the incoming gradient
    /// equally among tied winners.
    pub fn max(
        &self,
        graph: &mut Graph,
        axes: &[usize],
        keepdims: bool,
    ) -> (r: Result<Tensor, Error>)
        requires
            old(graph).wf(),
            old(graph).owns(*self),
        ensures
            final(graph).extends(*old(graph)),
            final(graph).yields(r, self.expr().max(axes@, keepdims)),
    {
        self.reduce(graph, axes, keepdims, Reduction::Maximum)
    }

    /// Minimum over explicit axes, as `-max(-x)`.
    pub fn min(
        &self,
        graph: &mut Graph,
        axes: &[usize],
        keepdims: bool,
    ) -> (r: Result<Tensor, Error>)
        requires
            old(graph).wf(),
            old(graph).owns(*self),
        ensures
            final(graph).extends(*old(graph)),
            final(graph).yields(r, self.expr().min(axes@, keepdims)),
    {
        proof {
            reveal(Expr::reduce);
        }
        if axes.len() == 0 {
            return Ok(self.copy());
        }
        self.neg(graph)?.max(graph, axes, keepdims)?.neg(graph)
    }

    /// Inclusive prefix sums along one axis. Empty and unit axes are identity.
    pub fn cumsum(
        &self,
        graph: &mut Graph,
        axis: usize,
    ) -> (r: Result<Tensor, Error>)
        requires
            old(graph).wf(),
            old(graph).owns(*self),
        ensures
            final(graph).extends(*old(graph)),
            final(graph).yields(r, self.expr().cumsum(axis)),
            final(graph).keeps_or_records(*old(graph), r),
    {
        if axis >= self.shape().len() {
            return Err(err("cumsum axis out of range"));
        }
        let length: i64 = self.shape()[axis];
        if length <= 1 || contains_extent(self.shape(), 0) {
            return Ok(self.copy());
        }
        if length.checked_add(length - 1).is_none() {
            return Err(err("cumsum padded extent overflows I64"));
        }
        graph.node1(Op::Cumsum { axis }, self, self.shape())
    }

    /// Mean over explicit axes.
    pub fn mean(
        &self,
        graph: &mut Graph,
        axes: &[usize],
        keepdims: bool,
    ) -> (r: Result<Tensor, Error>)
        requires
            old(graph).wf(),
            old(graph).owns(*self),
        ensures
            final(graph).extends(*old(graph)),
            final(graph).yields(r, self.expr().mean(axes@, keepdims)),
    {
        proof {
            reveal(Expr::mean);
        }
        let result: Tensor = self.sum(graph, axes, keepdims)?;
        proof {
            reveal(Expr::reduce);
        }
        let extents: Vec<i64> = gather_extents(self.shape(), axes);
        let count: usize = match elements(extents.as_slice()) {
            Err(e) => {
                return Err(e);
            },
            Ok(count) => count,
        };
        if count == 0 {
            return Err(err("mean over empty dimensions is undefined"));
        }
        result.mul_scalar(graph, Scalar::Reciprocal { count: count as u64 })
    }

    /// Softmax along a nonempty axis, shifted by its detached maximum.
    pub fn softmax(
        &self,
        graph: &mut Graph,
        axis: usize,
    ) -> (r: Result<Tensor, Error>)
        requires
            old(graph).wf(),
            old(graph).owns(*self),
        ensures
            final(graph).extends(*old(graph)),
            final(graph).yields(r, self.expr().softmax(axis)),
    {
        proof {
            reveal(Expr::softmax);
            reveal(Expr::reduce);
        }
        if axis >= self.shape().len() || self.shape()[axis] == 0 {
            return Err(err("softmax requires nonempty valid axis"));
        }
        let axes: Vec<usize> = vec![axis];
        assert(axes@ =~= seq![axis]);
        let shift: Tensor = self.max(graph, axes.as_slice(), true)?.detach(graph)?.broadcast_to(
            graph,
            self.shape(),
        )?;
        let e: Tensor = self.sub(graph, &shift)?.exp(graph)?;
        let total: Tensor = e.sum(graph, axes.as_slice(), true)?.broadcast_to(graph, self.shape())?;
        e.div(graph, &total)
    }

    /// Log probabilities along a nonempty axis, as
    /// `(x - max(x)) - log(sum(exp(x - max(x))))`.
    pub fn log_softmax(
        &self,
        graph: &mut Graph,
        axis: usize,
    ) -> (r: Result<Tensor, Error>)
        requires
            old(graph).wf(),
            old(graph).owns(*self),
        ensures
            final(graph).extends(*old(graph)),
            final(graph).yields(r, self.expr().log_softmax(axis)),
    {
        proof {
            reveal(Expr::log_softmax);
            reveal(Expr::reduce);
        }
        if axis >= self.shape().len() || self.shape()[axis] == 0 {
            return Err(err("log_softmax requires nonempty valid axis"));
        }
        let axes: Vec<usize> = vec![axis];
        assert(axes@ =~= seq![axis]);
        let shift: Tensor = self.max(graph, axes.as_slice(), true)?.detach(graph)?.broadcast_to(
            graph,
            self.shape(),
        )?;
        let centered: Tensor = self.sub(graph, &shift)?;
        let normalizer: Tensor = centered.exp(graph)?.sum(graph, axes.as_slice(), true)?.log(
            graph,
        )?.broadcast_to(graph, self.shape())?;
        centered.sub(graph, &normalizer)
    }

    /// Elementwise exponential.
    pub fn exp(
        &self,
        graph: &mut Graph,
    ) -> (r: Result<Tensor, Error>)
        requires
            old(graph).wf(),
            old(graph).owns(*self),
        ensures
            final(graph).extends(*old(graph)),
            final(graph).yields(r, self.expr().exp()),
            final(graph).records(*old(graph), r),
    {
        self.unary(graph, Unary::Exp)
    }

    /// Gaussian error function.
    pub fn erf(
        &self,
        graph: &mut Graph,
    ) -> (r: Result<Tensor, Error>)
        requires
            old(graph).wf(),
            old(graph).owns(*self),
        ensures
            final(graph).extends(*old(graph)),
            final(graph).yields(r, self.expr().erf()),
            final(graph).records(*old(graph), r),
    {
        self.unary(graph, Unary::Erf)
    }

    /// Round down toward negative infinity. Rounding operations stop the
    /// backward path: their reverse derivative is zero everywhere.
    pub fn floor(
        &self,
        graph: &mut Graph,
    ) -> (r: Result<Tensor, Error>)
        requires
            old(graph).wf(),
            old(graph).owns(*self),
        ensures
            final(graph).extends(*old(graph)),
            final(graph).yields(r, self.expr().floor()),
            final(graph).records(*old(graph), r),
    {
        self.unary(graph, Unary::Floor)
    }

    /// Round up toward positive infinity; same zero-gradient policy as `floor`.
    pub fn ceil(
        &self,
        graph: &mut Graph,
    ) -> (r: Result<Tensor, Error>)
        requires
            old(graph).wf(),
            old(graph).owns(*self),
        ensures
            final(graph).extends(*old(graph)),
            final(graph).yields(r, self.expr().ceil()),
            final(graph).records(*old(graph), r),
    {
        self.unary(graph, Unary::Ceil)
    }

    /// Round to the nearest integer, halfway cases away from zero.
    pub fn round(
        &self,
        graph: &mut Graph,
    ) -> (r: Result<Tensor, Error>)
        requires
            old(graph).wf(),
            old(graph).owns(*self),
        ensures
            final(graph).extends(*old(graph)),
            final(graph).yields(r, self.expr().round()),
            final(graph).records(*old(graph), r),
    {
        self.unary(graph, Unary::Round)
    }

    /// Round to the nearest integer, halfway cases to the even one.
    pub fn round_ties_even(
        &self,
        graph: &mut Graph,
    ) -> (r: Result<Tensor, Error>)
        requires
            old(graph).wf(),
            old(graph).owns(*self),
        ensures
            final(graph).extends(*old(graph)),
            final(graph).yields(r, self.expr().round_ties_even()),
            final(graph).records(*old(graph), r),
    {
        self.unary(graph, Unary::RoundTiesEven)
    }

    /// Sine of angles in radians.
    pub fn sin(
        &self,
        graph: &mut Graph,
    ) -> (r: Result<Tensor, Error>)
        requires
            old(graph).wf(),
            old(graph).owns(*self),
        ensures
            final(graph).extends(*old(graph)),
            final(graph).yields(r, self.expr().sin()),
            final(graph).records(*old(graph), r),
    {
        self.unary(graph, Unary::Sin)
    }

    /// Cosine of angles in radians.
    pub fn cos(
        &self,
        graph: &mut Graph,
    ) -> (r: Result<Tensor, Error>)
        requires
            old(graph).wf(),
            old(graph).owns(*self),
        ensures
            final(graph).extends(*old(graph)),
            final(graph).yields(r, self.expr().cos()),
            final(graph).records(*old(graph), r),
    {
        self.unary(graph, Unary::Cos)
    }

    /// Natural logarithm.
    pub fn log(
        &self,
        graph: &mut Graph,
    ) -> (r: Result<Tensor, Error>)
        requires
            old(graph).wf(),
            old(graph).owns(*self),
        ensures
            final(graph).extends(*old(graph)),
            final(graph).yields(r, self.expr().log()),
            final(graph).records(*old(graph), r),
    {
        self.unary(graph, Unary::Log)
    }

    /// Natural logarithm of `1 + x`.
    pub fn log1p(
        &self,
        graph: &mut Graph,
    ) -> (r: Result<Tensor, Error>)
        requires
            old(graph).wf(),
            old(graph).owns(*self),
        ensures
            final(graph).extends(*old(graph)),
            final(graph).yields(r, self.expr().log1p()),
            final(graph).records(*old(graph), r),
    {
        self.unary(graph, Unary::Log1p)
    }

    /// `exp(x) - 1`.
    pub fn expm1(
        &self,
        graph: &mut Graph,
    ) -> (r: Result<Tensor, Error>)
        requires
            old(graph).wf(),
            old(graph).owns(*self),
        ensures
            final(graph).extends(*old(graph)),
            final(graph).yields(r, self.expr().expm1()),
            final(graph).records(*old(graph), r),
    {
        self.unary(graph, Unary::Expm1)
    }

    /// Absolute value.
    pub fn abs(
        &self,
        graph: &mut Graph,
    ) -> (r: Result<Tensor, Error>)
        requires
            old(graph).wf(),
            old(graph).owns(*self),
        ensures
            final(graph).extends(*old(graph)),
            final(graph).yields(r, self.expr().abs()),
            final(graph).records(*old(graph), r),
    {
        self.unary(graph, Unary::Abs)
    }

    /// Negation.
    pub fn neg(
        &self,
        graph: &mut Graph,
    ) -> (r: Result<Tensor, Error>)
        requires
            old(graph).wf(),
            old(graph).owns(*self),
        ensures
            final(graph).extends(*old(graph)),
            final(graph).yields(r, self.expr().neg()),
            final(graph).records(*old(graph), r),
    {
        self.unary(graph, Unary::Neg)
    }

    /// Square root.
    pub fn sqrt(
        &self,
        graph: &mut Graph,
    ) -> (r: Result<Tensor, Error>)
        requires
            old(graph).wf(),
            old(graph).owns(*self),
        ensures
            final(graph).extends(*old(graph)),
            final(graph).yields(r, self.expr().sqrt()),
            final(graph).records(*old(graph), r),
    {
        self.unary(graph, Unary::Sqrt)
    }

    /// Reciprocal square root.
    pub fn rsqrt(
        &self,
        graph: &mut Graph,
    ) -> (r: Result<Tensor, Error>)
        requires
            old(graph).wf(),
            old(graph).owns(*self),
        ensures
            final(graph).extends(*old(graph)),
            final(graph).yields(r, self.expr().rsqrt()),
            final(graph).records(*old(graph), r),
    {
        self.unary(graph, Unary::Rsqrt)
    }

    /// Hyperbolic tangent.
    pub fn tanh(
        &self,
        graph: &mut Graph,
    ) -> (r: Result<Tensor, Error>)
        requires
            old(graph).wf(),
            old(graph).owns(*self),
        ensures
            final(graph).extends(*old(graph)),
            final(graph).yields(r, self.expr().tanh()),
            final(graph).records(*old(graph), r),
    {
        self.unary(graph, Unary::Tanh)
    }

    /// `max(x, 0)`, with gradient one for `x > 0` and zero otherwise.
    pub fn relu(
        &self,
        graph: &mut Graph,
    ) -> (r: Result<Tensor, Error>)
        requires
            old(graph).wf(),
            old(graph).owns(*self),
        ensures
            final(graph).extends(*old(graph)),
            final(graph).yields(r, self.expr().relu()),
            final(graph).records(*old(graph), r),
    {
        graph.node1(Op::Relu, self, self.shape())
    }

    /// Stable `log(1 + exp(x))`.
    pub fn softplus(
        &self,
        graph: &mut Graph,
    ) -> (r: Result<Tensor, Error>)
        requires
            old(graph).wf(),
            old(graph).owns(*self),
        ensures
            final(graph).extends(*old(graph)),
            final(graph).yields(r, self.expr().softplus()),
            final(graph).records(*old(graph), r),
    {
        graph.node1(Op::Softplus, self, self.shape())
    }

    /// Logistic sigmoid.
    pub fn sigmoid(
        &self,
        graph: &mut Graph,
    ) -> (r: Result<Tensor, Error>)
        requires
            old(graph).wf(),
            old(graph).owns(*self),
        ensures
            final(graph).extends(*old(graph)),
            final(graph).yields(r, self.expr().sigmoid()),
            final(graph).records(*old(graph), r),
    {
        graph.node1(Op::Sigmoid, self, self.shape())
    }

    /// The same value with a reverse-mode gradient boundary.
    pub fn detach(
        &self,
        graph: &mut Graph,
    ) -> (r: Result<Tensor, Error>)
        requires
            old(graph).wf(),
            old(graph).owns(*self),
        ensures
            final(graph).extends(*old(graph)),
            final(graph).yields(r, self.expr().detach()),
            final(graph).records(*old(graph), r),
    {
        graph.node1(Op::StopGradient, self, self.shape())
    }

    /// The value across an optimization boundary, with an identity derivative.
    pub fn optimization_barrier(
        &self,
        graph: &mut Graph,
    ) -> (r: Result<Tensor, Error>)
        requires
            old(graph).wf(),
            old(graph).owns(*self),
        ensures
            final(graph).extends(*old(graph)),
            final(graph).yields(r, self.expr().optimization_barrier()),
            final(graph).records(*old(graph), r),
    {
        graph.node1(Op::OptimizationBarrier, self, self.shape())
    }

    /// F32 mask: one for finite elements, zero for NaN and infinities.
    pub fn is_finite_mask(
        &self,
        graph: &mut Graph,
    ) -> (r: Result<Tensor, Error>)
        requires
            old(graph).wf(),
            old(graph).owns(*self),
        ensures
            final(graph).extends(*old(graph)),
            final(graph).yields(r, self.expr().is_finite_mask()),
            final(graph).records(*old(graph), r),
    {
        graph.node1(Op::IsFiniteMask, self, self.shape())
    }

    /// Elementwise sum.
    pub fn add(
        &self,
        graph: &mut Graph,
        rhs: &Tensor,
    ) -> (r: Result<Tensor, Error>)
        requires
            old(graph).wf(),
            old(graph).owns(*self),
            old(graph).admits(*rhs),
        ensures
            final(graph).extends(*old(graph)),
            final(graph).yields(r, self.expr().add(rhs.expr())),
            final(graph).records(*old(graph), r),
    {
        self.binary(graph, rhs, Binary::Add)
    }

    /// Elementwise difference.
    pub fn sub(
        &self,
        graph: &mut Graph,
        rhs: &Tensor,
    ) -> (r: Result<Tensor, Error>)
        requires
            old(graph).wf(),
            old(graph).owns(*self),
            old(graph).admits(*rhs),
        ensures
            final(graph).extends(*old(graph)),
            final(graph).yields(r, self.expr().sub(rhs.expr())),
            final(graph).records(*old(graph), r),
    {
        self.binary(graph, rhs, Binary::Sub)
    }

    /// Elementwise product.
    pub fn mul(
        &self,
        graph: &mut Graph,
        rhs: &Tensor,
    ) -> (r: Result<Tensor, Error>)
        requires
            old(graph).wf(),
            old(graph).owns(*self),
            old(graph).admits(*rhs),
        ensures
            final(graph).extends(*old(graph)),
            final(graph).yields(r, self.expr().mul(rhs.expr())),
            final(graph).records(*old(graph), r),
    {
        self.binary(graph, rhs, Binary::Mul)
    }

    /// Elementwise quotient.
    pub fn div(
        &self,
        graph: &mut Graph,
        rhs: &Tensor,
    ) -> (r: Result<Tensor, Error>)
        requires
            old(graph).wf(),
            old(graph).owns(*self),
            old(graph).admits(*rhs),
        ensures
            final(graph).extends(*old(graph)),
            final(graph).yields(r, self.expr().div(rhs.expr())),
            final(graph).records(*old(graph), r),
    {
        self.binary(graph, rhs, Binary::Div)
    }

    /// Elementwise maximum; backward splits ties equally.
    pub fn maximum(
        &self,
        graph: &mut Graph,
        rhs: &Tensor,
    ) -> (r: Result<Tensor, Error>)
        requires
            old(graph).wf(),
            old(graph).owns(*self),
            old(graph).admits(*rhs),
        ensures
            final(graph).extends(*old(graph)),
            final(graph).yields(r, self.expr().maximum(rhs.expr())),
            final(graph).records(*old(graph), r),
    {
        self.binary(graph, rhs, Binary::Maximum)
    }

    /// Elementwise minimum; backward splits ties equally.
    pub fn minimum(
        &self,
        graph: &mut Graph,
        rhs: &Tensor,
    ) -> (r: Result<Tensor, Error>)
        requires
            old(graph).wf(),
            old(graph).owns(*self),
            old(graph).admits(*rhs),
        ensures
            final(graph).extends(*old(graph)),
            final(graph).yields(r, self.expr().minimum(rhs.expr())),
            final(graph).records(*old(graph), r),
    {
        self.binary(graph, rhs, Binary::Minimum)
    }

    /// F32 equality mask: one where equal, zero elsewhere.
    pub fn eq_mask(
        &self,
        graph: &mut Graph,
        rhs: &Tensor,
    ) -> (r: Result<Tensor, Error>)
        requires
            old(graph).wf(),
            old(graph).owns(*self),
            old(graph).admits(*rhs),
        ensures
            final(graph).extends(*old(graph)),
            final(graph).yields(r, self.expr().eq_mask(rhs.expr())),
            final(graph).records(*old(graph), r),
    {
        self.compare_mask(graph, rhs, Comparison::Equal)
    }

    /// F32 inequality mask.
    pub fn ne_mask(
        &self,
        graph: &mut Graph,
        rhs: &Tensor,
    ) -> (r: Result<Tensor, Error>)
        requires
            old(graph).wf(),
            old(graph).owns(*self),
            old(graph).admits(*rhs),
        ensures
            final(graph).extends(*old(graph)),
            final(graph).yields(r, self.expr().ne_mask(rhs.expr())),
            final(graph).records(*old(graph), r),
    {
        self.compare_mask(graph, rhs, Comparison::NotEqual)
    }

    /// F32 less-than mask.
    pub fn lt_mask(
        &self,
        graph: &mut Graph,
        rhs: &Tensor,
    ) -> (r: Result<Tensor, Error>)
        requires
            old(graph).wf(),
            old(graph).owns(*self),
            old(graph).admits(*rhs),
        ensures
            final(graph).extends(*old(graph)),
            final(graph).yields(r, self.expr().lt_mask(rhs.expr())),
            final(graph).records(*old(graph), r),
    {
        self.compare_mask(graph, rhs, Comparison::Less)
    }

    /// F32 greater-than mask.
    pub fn gt_mask(
        &self,
        graph: &mut Graph,
        rhs: &Tensor,
    ) -> (r: Result<Tensor, Error>)
        requires
            old(graph).wf(),
            old(graph).owns(*self),
            old(graph).admits(*rhs),
        ensures
            final(graph).extends(*old(graph)),
            final(graph).yields(r, self.expr().gt_mask(rhs.expr())),
            final(graph).records(*old(graph), r),
    {
        self.compare_mask(graph, rhs, Comparison::Greater)
    }

    /// F32 greater-than-or-equal mask.
    pub fn ge_mask(
        &self,
        graph: &mut Graph,
        rhs: &Tensor,
    ) -> (r: Result<Tensor, Error>)
        requires
            old(graph).wf(),
            old(graph).owns(*self),
            old(graph).admits(*rhs),
        ensures
            final(graph).extends(*old(graph)),
            final(graph).yields(r, self.expr().ge_mask(rhs.expr())),
            final(graph).records(*old(graph), r),
    {
        self.compare_mask(graph, rhs, Comparison::GreaterEqual)
    }
}

} // verus!
