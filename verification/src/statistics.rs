//! Custom derivatives, stable log-sum-exp and moments.
use crate::error::{err, Error};
use crate::graph::{applied, values_of, Expr, Graph, Tensor, Value};
use crate::op::{f32_positive_finite, is_positive_finite, Op, OpModel, Scalar, F32_ZERO};
use crate::shape::{counted, elements, gather_extents, gathered, keep_extents, kept, same_dims};
use vstd::prelude::*;

verus! {

/// Inputs and partial derivatives, alternating.
pub open spec fn interleaved(partials: Seq<(Value, Value)>) -> Seq<Value> {
    Seq::new(
        2 * partials.len(),
        |k: int|
            if k % 2 == 0 {
                partials[k / 2].0
            } else {
                partials[k / 2].1
            },
    )
}

/// Whether a value has the graph and extents of another.
pub open spec fn alike(x: Value, y: Value) -> bool {
    x.graph == y.graph && x.dims == y.dims
}

/// The values of a list of input and derivative handles.
pub open spec fn partial_values(partials: Seq<(&Tensor, &Tensor)>) -> Seq<(Value, Value)> {
    Seq::new(partials.len(), |k: int| (partials[k].0@, partials[k].1@))
}

impl Expr {
    /// A forward value whose reverse rule is the given diagonal derivatives.
    pub open spec fn with_elementwise_derivatives(self, partials: Seq<(Value, Value)>) -> Expr {
        match self {
            Expr::Fails(e) => Expr::Fails(e),
            Expr::Is(x) => if partials.len() == 0 {
                Expr::invalid("elementwise derivatives require at least one input")
            } else if exists|k: int|
                0 <= k < partials.len() && !(alike(x, (#[trigger] partials[k]).0) && alike(
                    x,
                    partials[k].1,
                )) {
                Expr::invalid("elementwise derivative must match value graph and shape")
            } else {
                applied(
                    x.graph,
                    OpModel::WithElementwiseDerivative,
                    seq![x] + interleaved(partials),
                    x.dims,
                )
            },
        }
    }

    /// Stable `log(exp(x) + exp(y))` with sigmoid partial derivatives.
    #[verifier::opaque]
    pub open spec fn logaddexp(self, rhs: Expr) -> Expr {
        let maximum = self.maximum(rhs);
        let delta = self.sub(rhs).given(maximum);
        let finite = maximum.add(delta.abs().neg().exp().log1p()).given(delta);
        let nonfinite = self.exp().add(rhs.exp()).log().given(finite);
        let forward = maximum.is_finite_mask().select(finite, nonfinite).given(nonfinite);
        let left = delta.sigmoid().given(forward);
        let right = delta.neg().sigmoid().given(left);
        match (self, rhs, left, right) {
            (Expr::Is(x), Expr::Is(y), Expr::Is(dx), Expr::Is(dy)) => {
                forward.with_elementwise_derivatives(seq![(x, dx), (y, dy)])
            },
            _ => right.given(self),
        }
    }

    /// Stable log of the sum of exponentials over axes.
    pub open spec fn logsumexp(self, axes: Seq<usize>, keepdims: bool) -> Expr {
        match self {
            Expr::Fails(e) => Expr::Fails(e),
            Expr::Is(x) => if axes.len() == 0 {
                self
            } else {
                let maximum = self.max(axes, true);
                let zero = maximum.filled(Scalar::Bits(F32_ZERO));
                let shift = maximum.is_finite_mask().select(maximum, zero).detach().given(zero);
                let centered = self.sub(shift.broadcast_to(x.dims)).given(shift);
                let result = centered.exp().sum(axes, true).log().add(shift);
                if keepdims {
                    result
                } else {
                    result.reshape(kept(x.dims, axes))
                }
            },
        }
    }

    /// The mean with the reduced axes kept.
    pub open spec fn moments_mean(self, axes: Seq<usize>, keepdims: bool, correction: usize) -> Expr {
        let mean = self.mean(axes, true);
        match self.variance(axes, keepdims, correction) {
            Expr::Fails(e) => Expr::Fails(e),
            Expr::Is(v) => if keepdims {
                mean
            } else {
                mean.reshape(v.dims)
            },
        }
    }

    /// The two-pass variance: squared deviations over `count - correction`.
    pub open spec fn variance_core(self, axes: Seq<usize>, keepdims: bool, correction: usize) -> Expr {
        let mean = self.mean(axes, true);
        match (self, mean) {
            (Expr::Fails(e), _) => Expr::Fails(e),
            (_, Expr::Fails(e)) => Expr::Fails(e),
            (Expr::Is(x), Expr::Is(_)) => match counted(gathered(x.dims, axes)) {
                Err(e) => Expr::Fails(e),
                Ok(count) => if correction >= count {
                    Expr::invalid("variance requires reduction count greater than correction")
                } else {
                    let broad = mean.broadcast_to(x.dims);
                    let centered = self.sub(broad).given(broad);
                    centered.square().sum(axes, keepdims).mul_scalar(
                        Scalar::Reciprocal { count: (count - correction) as u64 },
                    )
                },
            },
        }
    }

    /// The two-pass variance over axes.
    pub open spec fn variance(self, axes: Seq<usize>, keepdims: bool, correction: usize) -> Expr {
        self.variance_core(axes, keepdims, correction)
    }

    /// Root-mean-square normalization of the last axis, scaled by a weight.
    pub open spec fn rms_norm(self, weight: Expr, epsilon: u32) -> Expr {
        match (self, weight) {
            (Expr::Fails(e), _) => Expr::Fails(e),
            (_, Expr::Fails(e)) => Expr::Fails(e),
            (Expr::Is(x), Expr::Is(w)) => if x.dims.len() == 0 || !f32_positive_finite(epsilon) {
                Expr::invalid("RMSNorm requires rank >=1 and finite positive epsilon")
            } else if w.dims != seq![x.dims.last()] {
                Expr::invalid("RMSNorm weight shape mismatch")
            } else {
                let axis = (x.dims.len() - 1) as usize;
                let scale = self.square().mean(seq![axis], true).add_scalar(
                    Scalar::Bits(epsilon),
                ).rsqrt().broadcast_to(x.dims);
                self.mul(scale).mul(weight.broadcast_to(x.dims))
            },
        }
    }
}

impl Tensor {
    /// Preserve this forward value while defining a diagonal reverse-mode rule:
    /// each pair is an input and its local partial derivative. The nonempty list
    /// must hold tensors with this value's graph and extents.
    pub fn with_elementwise_derivatives(
        &self,
        graph: &mut Graph,
        partials: &[(&Tensor, &Tensor)],
    ) -> (r: Result<Tensor, Error>)
        requires
            old(graph).wf(),
            old(graph).owns(*self),
            forall|k: int|
                0 <= k < partials@.len() ==> old(graph).admits(*(#[trigger] partials@[k]).0)
                    && old(graph).admits(*partials@[k].1),
        ensures
            final(graph).extends(*old(graph)),
            final(graph).yields(r, self.expr().with_elementwise_derivatives(partial_values(partials@))),
            final(graph).records(*old(graph), r),
    {
        let ghost pairs = partial_values(partials@);
        if partials.len() == 0 {
            return Err(err("elementwise derivatives require at least one input"));
        }
        let mut operands: Vec<Tensor> = vec![self.copy()];
        let mut refused: bool = false;
        let mut k: usize = 0;
        while k < partials.len()
            invariant
                *graph == *old(graph),
                graph.wf(),
                graph.owns(*self),
                pairs == partial_values(partials@),
                forall|j: int|
                    0 <= j < partials@.len() ==> graph.admits(*(#[trigger] partials@[j]).0)
                        && graph.admits(*partials@[j].1),
                k <= partials@.len(),
                operands@.len() == 1 + 2 * k,
                refused == exists|j: int|
                    0 <= j < k && !(alike(self@, (#[trigger] pairs[j]).0) && alike(self@, pairs[j].1)),
                values_of(operands@) == seq![self@] + interleaved(pairs.take(k as int)),
                !refused ==> forall|j: int|
                    0 <= j < operands@.len() ==> #[trigger] graph.owns(operands@[j])
                        && operands@[j]@.dims == self@.dims,
            decreases partials@.len() - k,
        {
            let (input, derivative): (&Tensor, &Tensor) = partials[k];
            assert(graph.admits(*partials@[k as int].0) && graph.admits(*partials@[k as int].1));
            assert(pairs[k as int] == (input@, derivative@));
            if !self.same_graph(input) || !same_dims(self.shape(), input.shape()) || !self.same_graph(
                derivative,
            ) || !same_dims(self.shape(), derivative.shape()) {
                assert(!(alike(self@, pairs[k as int].0) && alike(self@, pairs[k as int].1)));
                refused = true;
            }
            let ghost before = operands@;
            operands.push(input.copy());
            operands.push(derivative.copy());
            proof {
                let now = seq![self@] + interleaved(pairs.take(k + 1));
                assert forall|j: int| 0 <= j < now.len() implies #[trigger] now[j] == values_of(
                    operands@,
                )[j] by {
                    if j < before.len() {
                        assert(values_of(before)[j] == (seq![self@] + interleaved(pairs.take(k as int)))[j]);
                        if j > 0 {
                            assert(pairs.take(k + 1)[(j - 1) / 2] == pairs.take(k as int)[(j - 1) / 2]);
                        }
                    } else {
                        assert((j - 1) / 2 == k);
                        assert(pairs.take(k + 1)[k as int] == pairs[k as int]);
                    }
                }
                assert(values_of(operands@) =~= now);
                if !refused {
                    assert forall|j: int| 0 <= j < operands@.len() implies #[trigger] graph.owns(
                        operands@[j],
                    ) && operands@[j]@.dims == self@.dims by {
                        if j < before.len() {
                            assert(graph.owns(before[j]));
                        }
                    }
                }
            }
            k += 1;
        }
        assert(pairs.take(k as int) =~= pairs);
        if refused {
            return Err(err("elementwise derivative must match value graph and shape"));
        }
        proof {
            assert forall|j: int| 0 <= j < values_of(operands@).len() implies (#[trigger] values_of(
                operands@,
            )[j]).dims == self@.dims by {
                assert(graph.owns(operands@[j]));
            }
        }
        graph.node_list(Op::WithElementwiseDerivative, operands.as_slice(), self.shape())
    }

    /// Preserve this forward value while defining a diagonal reverse-mode rule
    /// with respect to one input.
    pub fn with_elementwise_derivative(
        &self,
        graph: &mut Graph,
        input: &Tensor,
        derivative: &Tensor,
    ) -> (r: Result<Tensor, Error>)
        requires
            old(graph).wf(),
            old(graph).owns(*self),
            old(graph).admits(*input),
            old(graph).admits(*derivative),
        ensures
            final(graph).extends(*old(graph)),
            final(graph).yields(r, self.expr().with_elementwise_derivatives(seq![(input@, derivative@)])),
            final(graph).records(*old(graph), r),
    {
        let partials: Vec<(&Tensor, &Tensor)> = vec![(input, derivative)];
        assert(partial_values(partials@) =~= seq![(input@, derivative@)]);
        self.with_elementwise_derivatives(graph, partials.as_slice())
    }

    /// `log1p(exp(-abs(self)))`, which no argument overflows.
    fn log1p_of_decay(&self, graph: &mut Graph) -> (r: Result<Tensor, Error>)
        requires
            old(graph).wf(),
            old(graph).owns(*self),
        ensures
            final(graph).extends(*old(graph)),
            final(graph).yields(r, self.expr().abs().neg().exp().log1p()),
    {
        self.abs(graph)?.neg(graph)?.exp(graph)?.log1p(graph)
    }

    /// `log(exp(self) + exp(rhs))`, as it stands.
    fn log_of_exponentials(&self, graph: &mut Graph, rhs: &Tensor) -> (r: Result<Tensor, Error>)
        requires
            old(graph).wf(),
            old(graph).owns(*self),
            old(graph).owns(*rhs),
        ensures
            final(graph).extends(*old(graph)),
            final(graph).yields(r, self.expr().exp().add(rhs.expr().exp()).log()),
    {
        let left: Tensor = self.exp(graph)?;
        let right: Tensor = rhs.exp(graph)?;
        left.add(graph, &right)?.log(graph)
    }

    /// Stable elementwise `log(exp(self) + exp(rhs))`. Negative infinity acts as
    /// a mask; positive infinity and NaN propagate.
    #[verifier::rlimit(40)]
    pub fn logaddexp(
        &self,
        graph: &mut Graph,
        rhs: &Tensor,
    ) -> (r: Result<Tensor, Error>)
        requires
            old(graph).wf(),
            old(graph).owns(*self),
            old(graph).admits(*rhs),
        ensures
            final(graph).extends(*old(graph)),
            final(graph).yields(r, self.expr().logaddexp(rhs.expr())),
    {
        proof {
            reveal(Expr::logaddexp);
        }
        let maximum: Tensor = self.maximum(graph, rhs)?;
        let delta: Tensor = self.sub(graph, rhs)?;
        let tail: Tensor = delta.log1p_of_decay(graph)?;
        let finite: Tensor = maximum.add(graph, &tail)?;
        assert(graph.owns(*rhs)) by {
            reveal(applied);
        }
        let nonfinite: Tensor = self.log_of_exponentials(graph, rhs)?;
        let forward: Tensor = maximum.is_finite_mask(graph)?.select(graph, &finite, &nonfinite)?;
        let dx: Tensor = delta.sigmoid(graph)?;
        let dy: Tensor = delta.neg(graph)?.sigmoid(graph)?;
        let partials: Vec<(&Tensor, &Tensor)> = vec![(self, &dx), (rhs, &dy)];
        assert(partial_values(partials@) =~= seq![(self@, dx@), (rhs@, dy@)]);
        forward.with_elementwise_derivatives(graph, partials.as_slice())
    }

    /// Stable log of the sum of exponentials over explicit axes, shifted by the
    /// detached maximum where it is finite.
    pub fn logsumexp(
        &self,
        graph: &mut Graph,
        axes: &[usize],
        keepdims: bool,
    ) -> (r: Result<Tensor, Error>)
        requires
            old(graph).wf(),
            old(graph).owns(*self),
        ensures
            final(graph).extends(*old(graph)),
            final(graph).yields(r, self.expr().logsumexp(axes@, keepdims)),
    {
        if axes.len() == 0 {
            return Ok(self.copy());
        }
        proof {
            reveal(Expr::reduce);
            reveal(Expr::filled);
        }
        let maximum: Tensor = self.max(graph, axes, true)?;
        let zero: Tensor = maximum.filled(graph, Scalar::Bits(F32_ZERO))?;
        let shift: Tensor = maximum.is_finite_mask(graph)?.select(graph, &maximum, &zero)?.detach(
            graph,
        )?;
        let broad: Tensor = shift.broadcast_to(graph, self.shape())?;
        let centered: Tensor = self.sub(graph, &broad)?;
        let total: Tensor = centered.exp(graph)?.sum(graph, axes, true)?.log(graph)?;
        let result: Tensor = total.add(graph, &shift)?;
        if keepdims {
            Ok(result)
        } else {
            let dims: Vec<i64> = keep_extents(self.shape(), axes);
            result.reshape(graph, dims.as_slice())
        }
    }

    /// Mean and two-pass variance over explicit axes. The sum of squared
    /// deviations is divided by `count - correction`, which must be positive.
    pub fn moments(
        &self,
        graph: &mut Graph,
        axes: &[usize],
        keepdims: bool,
        correction: usize,
    ) -> (r: Result<(Tensor, Tensor), Error>)
        requires
            old(graph).wf(),
            old(graph).owns(*self),
        ensures
            final(graph).extends(*old(graph)),
            match r {
                Ok((mean, variance)) => {
                    &&& final(graph).owns(mean)
                    &&& final(graph).owns(variance)
                    &&& self.expr().moments_mean(axes@, keepdims, correction) == Expr::Is(mean@)
                    &&& self.expr().variance(axes@, keepdims, correction) == Expr::Is(variance@)
                },
                Err(e) => self.expr().moments_mean(axes@, keepdims, correction) == Expr::Fails(e),
            },
    {
        proof {
            reveal(Expr::mean);
            reveal(Expr::reduce);
            reveal(Expr::mul_scalar);
        }
        let mean: Tensor = self.mean(graph, axes, true)?;
        let extents: Vec<i64> = gather_extents(self.shape(), axes);
        let count: usize = match elements(extents.as_slice()) {
            Err(e) => {
                return Err(e);
            },
            Ok(count) => count,
        };
        if correction >= count {
            return Err(err("variance requires reduction count greater than correction"));
        }
        let broad: Tensor = mean.broadcast_to(graph, self.shape())?;
        let centered: Tensor = self.sub(graph, &broad)?;
        let variance: Tensor = centered.square(graph)?.sum(graph, axes, keepdims)?.mul_scalar(
            graph,
            Scalar::Reciprocal { count: (count - correction) as u64 },
        )?;
        let mean: Tensor = if keepdims {
            mean
        } else {
            mean.reshape(graph, variance.shape())?
        };
        Ok((mean, variance))
    }

    /// Two-pass variance; see `moments` for the correction.
    pub fn variance(
        &self,
        graph: &mut Graph,
        axes: &[usize],
        keepdims: bool,
        correction: usize,
    ) -> (r: Result<Tensor, Error>)
        requires
            old(graph).wf(),
            old(graph).owns(*self),
        ensures
            final(graph).extends(*old(graph)),
            final(graph).yields(
                r,
                self.expr().variance(axes@, keepdims, correction).given(
                    self.expr().moments_mean(axes@, keepdims, correction),
                ),
            ),
    {
        let (_mean, variance): (Tensor, Tensor) = self.moments(graph, axes, keepdims, correction)?;
        Ok(variance)
    }

    /// Root-mean-square normalization of the last axis, scaled by a weight of
    /// its length. `epsilon` is given by its F32 bits.
    pub fn rms_norm(
        &self,
        graph: &mut Graph,
        weight: &Tensor,
        epsilon: u32,
    ) -> (r: Result<Tensor, Error>)
        requires
            old(graph).wf(),
            old(graph).owns(*self),
            old(graph).admits(*weight),
        ensures
            final(graph).extends(*old(graph)),
            final(graph).yields(r, self.expr().rms_norm(weight.expr(), epsilon)),
    {
        if self.shape().len() == 0 || !is_positive_finite(epsilon) {
            return Err(err("RMSNorm requires rank >=1 and finite positive epsilon"));
        }
        let axis: usize = self.shape().len() - 1;
        let expected: Vec<i64> = vec![self.shape()[axis]];
        assert(expected@ =~= seq![self@.dims.last()]);
        if !same_dims(weight.shape(), expected.as_slice()) {
            return Err(err("RMSNorm weight shape mismatch"));
        }
        proof {
            reveal(Expr::mean);
            reveal(Expr::reduce);
            reveal(Expr::add_scalar);
        }
        let axes: Vec<usize> = vec![axis];
        assert(axes@ =~= seq![axis]);
        let scale: Tensor = self.square(graph)?.mean(graph, axes.as_slice(), true)?.add_scalar(
            graph,
            Scalar::Bits(epsilon),
        )?.rsqrt(graph)?.broadcast_to(graph, self.shape())?;
        let scaled: Tensor = self.mul(graph, &scale)?;
        proof {
            crate::facts::binary_keeps(self.expr(), scale.expr(), crate::op::Binary::Mul);
        }
        let broad: Tensor = weight.broadcast_operand(graph, self.shape())?;
        scaled.mul(graph, &broad)
    }
}

} // verus!
