//! Composite model operations: losses, normalization and linear layers.
use crate::error::{err, invalid, Error};
use crate::graph::{scalar, scalar_i32, Expr, Graph, Tensor, Value};
use crate::op::{
    f32_order, f32_positive_finite, is_positive_finite, order, Scalar, F32_HALF, F32_NAN,
    F32_NEG_HALF, F32_ONE, F32_ZERO,
};
use crate::shape::{axis_span, lemma_volume_nonnegative, same_dims, span};
use vstd::prelude::*;

verus! {

/// `-0.5 * ln(2 * pi)` in F32.
pub const NEG_HALF_LN_TAU: u32 = 0xbf6b_3f8e;

/// Graph values of batch normalization in training. Statistics have shape
/// `[channels]` and stay differentiable.
pub struct BatchNormTraining {
    pub output: Tensor,
    pub mean: Tensor,
    /// Population variance, before epsilon is added.
    pub variance: Tensor,
}

/// The value of an optional operand.
pub open spec fn operand(tensor: Option<&Tensor>) -> Option<Value> {
    match tensor {
        Some(tensor) => Some(tensor@),
        None => None,
    }
}

/// Why a parameter is refused: other extents, or another graph.
pub open spec fn parameter_refusal(
    x: Value,
    parameter: Value,
    dims: Seq<i64>,
    bad_dims: &'static str,
    bad_graph: &'static str,
) -> Option<Error> {
    if parameter.dims != dims {
        Some(invalid(bad_dims))
    } else if parameter.graph != x.graph {
        Some(invalid(bad_graph))
    } else {
        None
    }
}

/// Why an optional parameter is refused.
pub open spec fn optional_refusal(
    x: Value,
    parameter: Option<Value>,
    dims: Seq<i64>,
    bad_dims: &'static str,
    bad_graph: &'static str,
) -> Option<Error> {
    match parameter {
        None => None,
        Some(p) => parameter_refusal(x, p, dims, bad_dims, bad_graph),
    }
}

/// Every axis but one, in order.
pub open spec fn other_axes(rank: nat, axis: usize) -> Seq<usize> {
    span(0, axis as nat) + span((axis + 1) as nat, rank)
}

/// Whether the trailing extents of a shape are the given ones.
pub open spec fn ends_with(dims: Seq<i64>, suffix: Seq<i64>) -> bool {
    suffix.len() <= dims.len() && dims.skip(dims.len() - suffix.len()) == suffix
}

/// Whether every extent is positive.
pub open spec fn all_positive(dims: Seq<i64>) -> bool {
    forall|i: int| 0 <= i < dims.len() ==> #[trigger] dims[i] > 0
}

/// The extents of channels split into groups.
pub open spec fn grouped(dims: Seq<i64>, groups: i64) -> Seq<i64> {
    seq![dims[0], groups, (dims[1] as int / groups as int) as i64] + dims.skip(2)
}

/// Whether data can be normalized in channel groups.
pub open spec fn groups_valid(dims: Seq<i64>, groups: i64) -> bool {
    dims.len() >= 2 && groups > 0 && all_positive(dims.skip(1)) && dims[1] as int % groups as int
        == 0
}

/// The first reason why trailing axes are not normalized.
pub open spec fn layer_norm_error(
    x: Value,
    normalized_shape: Seq<i64>,
    weight: Option<Value>,
    bias: Option<Value>,
    epsilon: u32,
) -> Option<Error> {
    if normalized_shape.len() == 0 || !all_positive(normalized_shape) || !ends_with(
        x.dims,
        normalized_shape,
    ) || !f32_positive_finite(epsilon) {
        Some(
            invalid(
                "LayerNorm requires nonempty matching trailing dimensions and finite positive epsilon",
            ),
        )
    } else {
        match layer_refusal(x, weight, normalized_shape) {
            Some(e) => Some(e),
            None => layer_refusal(x, bias, normalized_shape),
        }
    }
}

/// The first reason why channel groups are not normalized.
pub open spec fn group_norm_error(
    x: Value,
    groups: i64,
    weight: Option<Value>,
    bias: Option<Value>,
    epsilon: u32,
) -> Option<Error> {
    if !groups_valid(x.dims, groups) || !f32_positive_finite(epsilon) {
        Some(
            invalid(
                "GroupNorm requires [N,C,...], nonempty groups dividing C, nonempty spatial axes and finite positive epsilon",
            ),
        )
    } else {
        match group_refusal(x, weight) {
            Some(e) => Some(e),
            None => group_refusal(x, bias),
        }
    }
}

impl Expr {
    /// The expression with an optional factor of its trailing extents.
    pub open spec fn scaled_by(self, factor: Option<Value>, dims: Seq<i64>) -> Expr {
        match factor {
            None => self,
            Some(w) => self.mul(Expr::Is(w).broadcast_to(dims)),
        }
    }

    /// The expression with an optional summand of its trailing extents.
    pub open spec fn shifted_by(self, summand: Option<Value>, dims: Seq<i64>) -> Expr {
        match summand {
            None => self,
            Some(w) => self.add(Expr::Is(w).broadcast_to(dims)),
        }
    }

    /// The expression with an optional factor along the second axis.
    pub open spec fn channels_scaled_by(self, factor: Option<Value>, dims: Seq<i64>) -> Expr {
        match factor {
            None => self,
            Some(w) => self.mul(Expr::Is(w).broadcast_in_dim(dims, seq![1])),
        }
    }

    /// The expression with an optional summand along the second axis.
    pub open spec fn channels_shifted_by(self, summand: Option<Value>, dims: Seq<i64>) -> Expr {
        match summand {
            None => self,
            Some(w) => self.add(Expr::Is(w).broadcast_in_dim(dims, seq![1])),
        }
    }

    /// Gaussian log density with a mean and a log standard deviation.
    pub open spec fn normal_log_prob(self, mean: Expr, log_std: Expr) -> Expr {
        match (self, mean, log_std) {
            (Expr::Fails(e), _, _) => Expr::Fails(e),
            (_, Expr::Fails(e), _) => Expr::Fails(e),
            (_, _, Expr::Fails(e)) => Expr::Fails(e),
            (Expr::Is(x), Expr::Is(m), Expr::Is(s)) => if m.graph != x.graph || m.dims != x.dims
                || s.graph != x.graph || s.dims != x.dims {
                Expr::invalid("normal log-prob parameters must match value graph and shape")
            } else {
                let normalized = self.sub(mean).mul(log_std.neg().exp());
                normalized.mul(normalized).mul_scalar(Scalar::Bits(F32_NEG_HALF)).sub(
                    log_std,
                ).add_scalar(Scalar::Bits(NEG_HALF_LN_TAU))
            },
        }
    }

    /// Inverted dropout with an explicit keep mask.
    pub open spec fn dropout_with_mask(self, keep_mask: Expr, keep_probability: u32) -> Expr {
        match (self, keep_mask) {
            (Expr::Fails(e), _) => Expr::Fails(e),
            (_, Expr::Fails(e)) => Expr::Fails(e),
            (Expr::Is(x), Expr::Is(m)) => if !f32_positive_finite(keep_probability) || f32_order(
                keep_probability,
            ) > f32_order(F32_ONE) {
                Expr::invalid("dropout keep probability must be finite and in (0, 1]")
            } else if m.graph != x.graph || m.dims != x.dims {
                Expr::invalid("dropout mask must match input graph and shape")
            } else {
                let zero = self.filled(Scalar::Bits(F32_ZERO));
                let divisor = self.filled(Scalar::Bits(keep_probability)).given(zero);
                keep_mask.select(self, zero).given(divisor).div(divisor)
            },
        }
    }

    /// Huber loss of a residual: quadratic up to `delta`, linear beyond.
    pub open spec fn huber_loss(self, targets: Expr, delta: u32) -> Expr {
        match (self, targets) {
            (Expr::Fails(e), _) => Expr::Fails(e),
            (_, Expr::Fails(e)) => Expr::Fails(e),
            (Expr::Is(x), Expr::Is(t)) => if !f32_positive_finite(delta) {
                Expr::invalid("Huber delta must be finite and positive")
            } else if t.graph != x.graph || t.dims != x.dims {
                Expr::invalid("Huber targets must match prediction graph and shape")
            } else {
                let residual = self.sub(targets);
                let magnitude = residual.abs();
                let limit = self.filled(Scalar::Bits(delta)).given(magnitude);
                let quadratic = magnitude.le_mask(limit);
                let zero = self.filled(Scalar::Bits(F32_ZERO)).given(quadratic);
                let safe = quadratic.select(residual, zero);
                let squared = safe.mul_scalar(Scalar::Bits(F32_HALF)).given(safe).mul(safe);
                let half = limit.mul_scalar(Scalar::Bits(F32_HALF)).given(squared);
                let linear = magnitude.given(half).sub(half).mul_scalar(
                    Scalar::Bits(delta),
                ).given(magnitude.given(half).sub(half));
                quadratic.select(squared, linear)
            },
        }
    }

    /// Binary cross entropy from logits:
    /// `targets * softplus(-logits) + (1 - targets) * softplus(logits)`.
    pub open spec fn binary_cross_entropy_with_logits(self, targets: Expr) -> Expr {
        match (self, targets) {
            (Expr::Fails(e), _) => Expr::Fails(e),
            (_, Expr::Fails(e)) => Expr::Fails(e),
            (Expr::Is(x), Expr::Is(t)) => if t.graph != x.graph {
                Expr::invalid("cross-graph binary cross entropy targets")
            } else if t.dims != x.dims {
                Expr::invalid("binary cross entropy targets must match logits shape")
            } else {
                let positive = targets.mul(self.neg().softplus());
                let rest = targets.neg().add_scalar(Scalar::Bits(F32_ONE)).given(targets.neg());
                positive.add(rest.mul(self.softplus()))
            },
        }
    }

    /// Cross entropy from logits and class indices.
    pub open spec fn cross_entropy_with_indices(self, targets: Expr, axis: usize) -> Expr {
        match (self, targets) {
            (Expr::Fails(e), _) => Expr::Fails(e),
            (_, Expr::Fails(e)) => Expr::Fails(e),
            (Expr::Is(x), Expr::Is(t)) => if t.graph != x.graph {
                Expr::invalid("cross-graph cross entropy indices")
            } else if axis >= x.dims.len() || x.dims[axis as int] == 0 {
                Expr::invalid("cross entropy requires a nonempty class axis")
            } else if t.dims != x.dims.remove(axis as int) {
                Expr::invalid("cross entropy index shape must omit the class axis")
            } else {
                let dims = x.dims.remove(axis as int);
                let likelihood = self.log_softmax(axis);
                let indices = targets.reshape(dims.insert(axis as int, 1)).given(likelihood);
                let loss = likelihood.take_along_axis(indices, axis).reshape(dims).neg();
                let zero = scalar_i32(x.graph, 0).broadcast_to(dims).given(loss);
                let last = scalar_i32(x.graph, last_class(x.dims[axis as int])).broadcast_to(
                    dims,
                ).given(zero);
                let valid = zero.le_mask(targets).given(last).mul(targets.le_mask(last));
                let nan = scalar(x.graph, Scalar::Bits(F32_NAN)).broadcast_to(dims).given(valid);
                valid.select(loss, nan)
            },
        }
    }

    /// Cross entropy from logits and target probabilities:
    /// `-sum(targets * log_softmax(logits), axis)`.
    pub open spec fn cross_entropy_with_probs(self, targets: Expr, axis: usize) -> Expr {
        match (self, targets) {
            (Expr::Fails(e), _) => Expr::Fails(e),
            (_, Expr::Fails(e)) => Expr::Fails(e),
            (Expr::Is(x), Expr::Is(t)) => if t.graph != x.graph {
                Expr::invalid("cross-graph cross entropy targets")
            } else if t.dims != x.dims {
                Expr::invalid("cross entropy targets must match logits shape")
            } else {
                self.log_softmax(axis).mul(targets).sum(seq![axis], false).neg()
            },
        }
    }

    /// `(x - mean) * rsqrt(variance + epsilon) * weight + bias` along an axis.
    #[verifier::opaque]
    pub open spec fn standardized(
        self,
        axis: usize,
        mean: Expr,
        variance: Expr,
        weight: Expr,
        bias: Expr,
        epsilon: u32,
    ) -> Expr {
        let dims = self->Is_0.dims;
        let shifted = variance.add_scalar(Scalar::Bits(epsilon));
        let scale = shifted.rsqrt().mul(weight);
        let center = mean.broadcast_in_dim(dims, seq![axis]).given(scale);
        self.sub(center).mul(scale.broadcast_in_dim(dims, seq![axis])).add(
            bias.broadcast_in_dim(dims, seq![axis]),
        )
    }

    /// Batch normalization with supplied statistics.
    pub open spec fn batch_norm_inference(
        self,
        axis: usize,
        mean: Value,
        variance: Value,
        weight: Value,
        bias: Value,
        epsilon: u32,
    ) -> Expr {
        match self {
            Expr::Fails(e) => Expr::Fails(e),
            Expr::Is(x) => if axis >= x.dims.len() || x.dims[axis as int] <= 0
                || !f32_positive_finite(epsilon) {
                Expr::invalid(
                    "BatchNorm requires a nonempty channel axis and finite positive epsilon",
                )
            } else {
                match (
                    channel_refusal(x, mean, axis),
                    channel_refusal(x, variance, axis),
                    channel_refusal(x, weight, axis),
                    channel_refusal(x, bias, axis),
                ) {
                    (Some(e), _, _, _) => Expr::Fails(e),
                    (_, Some(e), _, _) => Expr::Fails(e),
                    (_, _, Some(e), _) => Expr::Fails(e),
                    (_, _, _, Some(e)) => Expr::Fails(e),
                    _ => self.standardized(
                        axis,
                        Expr::Is(mean),
                        Expr::Is(variance),
                        Expr::Is(weight),
                        Expr::Is(bias),
                        epsilon,
                    ),
                }
            },
        }
    }

    /// Batch normalization with the statistics of the batch.
    pub open spec fn batch_norm_training(
        self,
        axis: usize,
        weight: Value,
        bias: Value,
        epsilon: u32,
    ) -> Expr {
        match self {
            Expr::Fails(e) => Expr::Fails(e),
            Expr::Is(x) => if axis >= x.dims.len() || x.dims[axis as int] <= 0
                || !f32_positive_finite(epsilon) {
                Expr::invalid(
                    "BatchNorm requires a nonempty channel axis and finite positive epsilon",
                )
            } else {
                match (affine_refusal(x, weight, axis), affine_refusal(x, bias, axis)) {
                    (Some(e), _) => Expr::Fails(e),
                    (_, Some(e)) => Expr::Fails(e),
                    _ => match (self.batch_mean(axis), self.batch_variance(axis)) {
                        (Expr::Fails(e), _) => Expr::Fails(e),
                        (_, Expr::Fails(e)) => Expr::Fails(e),
                        (Expr::Is(mean), Expr::Is(variance)) => self.batch_norm_inference(
                            axis,
                            mean,
                            variance,
                            weight,
                            bias,
                            epsilon,
                        ),
                    },
                }
            },
        }
    }

    /// The mean of every channel over all other axes.
    pub open spec fn batch_mean(self, axis: usize) -> Expr {
        self.moments_mean(other_axes(self->Is_0.dims.len(), axis), false, 0)
    }

    /// The population variance of every channel over all other axes.
    pub open spec fn batch_variance(self, axis: usize) -> Expr {
        self.variance(other_axes(self->Is_0.dims.len(), axis), false, 0)
    }

    /// `x @ weight.T + bias` on the last axis.
    pub open spec fn linear(self, weight: Expr, bias: Option<Value>) -> Expr {
        match (self, weight) {
            (Expr::Fails(e), _) => Expr::Fails(e),
            (_, Expr::Fails(e)) => Expr::Fails(e),
            (Expr::Is(x), Expr::Is(w)) => if x.dims.len() == 0 || w.dims.len() != 2 || x.dims.last()
                != w.dims[1] {
                Expr::invalid("Linear requires input [..., in] and weight [out, in]")
            } else if w.graph != x.graph {
                Expr::invalid("cross-graph Linear weight")
            } else {
                match optional_refusal(
                    x,
                    bias,
                    seq![w.dims[0]],
                    "Linear bias must have shape [out]",
                    "cross-graph Linear bias",
                ) {
                    Some(e) => Expr::Fails(e),
                    None => match self.matmul(weight.transpose(seq![1, 0])) {
                        Expr::Fails(e) => Expr::Fails(e),
                        Expr::Is(y) => Expr::Is(y).shifted_by(bias, y.dims),
                    },
                }
            },
        }
    }

    /// Deviations from the mean over trailing axes, over their root mean
    /// square.
    #[verifier::opaque]
    pub open spec fn normalized(self, axes: Seq<usize>, epsilon: u32) -> Expr {
        let dims = self->Is_0.dims;
        let centered = self.sub(self.mean(axes, true).broadcast_to(dims));
        let inverse = centered.square().mean(axes, true).add_scalar(Scalar::Bits(epsilon)).rsqrt();
        centered.mul(inverse.broadcast_to(dims))
    }

    /// Layer normalization over trailing extents, with optional affine tensors.
    pub open spec fn layer_norm(
        self,
        normalized_shape: Seq<i64>,
        weight: Option<Value>,
        bias: Option<Value>,
        epsilon: u32,
    ) -> Expr {
        match self {
            Expr::Fails(e) => Expr::Fails(e),
            Expr::Is(x) => match layer_norm_error(x, normalized_shape, weight, bias, epsilon) {
                Some(e) => Expr::Fails(e),
                None => self.normalized(
                    span((x.dims.len() - normalized_shape.len()) as nat, x.dims.len()),
                    epsilon,
                ).scaled_by(weight, x.dims).shifted_by(bias, x.dims),
            },
        }
    }

    /// Group normalization of `[N, C, ...]` data, with optional affine tensors.
    pub open spec fn group_norm(
        self,
        groups: i64,
        weight: Option<Value>,
        bias: Option<Value>,
        epsilon: u32,
    ) -> Expr {
        match self {
            Expr::Fails(e) => Expr::Fails(e),
            Expr::Is(x) => match group_norm_error(x, groups, weight, bias, epsilon) {
                Some(e) => Expr::Fails(e),
                None => self.reshape(grouped(x.dims, groups)).layer_norm(
                    grouped(x.dims, groups).skip(2),
                    None,
                    None,
                    epsilon,
                ).reshape(x.dims).channels_scaled_by(weight, x.dims).channels_shifted_by(
                    bias,
                    x.dims,
                ),
            },
        }
    }
}

/// The last class index, as far as I32 reaches.
pub open spec fn last_class(classes: i64) -> i32 {
    if classes - 1 <= i32::MAX {
        (classes - 1) as i32
    } else {
        i32::MAX
    }
}

/// Why a parameter of batch normalization is refused.
pub open spec fn channel_refusal(x: Value, parameter: Value, axis: usize) -> Option<Error> {
    parameter_refusal(
        x,
        parameter,
        seq![x.dims[axis as int]],
        "BatchNorm parameters must have shape [channels]",
        "cross-graph BatchNorm parameter",
    )
}

/// Why an affine tensor of batch normalization in training is refused.
pub open spec fn affine_refusal(x: Value, parameter: Value, axis: usize) -> Option<Error> {
    parameter_refusal(
        x,
        parameter,
        seq![x.dims[axis as int]],
        "BatchNorm affine parameters must have shape [channels]",
        "cross-graph BatchNorm affine parameter",
    )
}

/// Why an affine tensor of layer normalization is refused.
pub open spec fn layer_refusal(x: Value, parameter: Option<Value>, dims: Seq<i64>) -> Option<
    Error,
> {
    optional_refusal(
        x,
        parameter,
        dims,
        "LayerNorm affine shape must equal normalized_shape",
        "cross-graph LayerNorm affine tensor",
    )
}

/// Why an affine tensor of group normalization is refused.
pub open spec fn group_refusal(x: Value, parameter: Option<Value>) -> Option<Error> {
    optional_refusal(
        x,
        parameter,
        seq![x.dims[1]],
        "GroupNorm affine tensors must have shape [C] in the input graph",
        "GroupNorm affine tensors must have shape [C] in the input graph",
    )
}

/// Whether every extent is positive.
fn are_positive(dims: &[i64]) -> (r: bool)
    ensures
        r == all_positive(dims@),
{
    let mut i: usize = 0;
    while i < dims.len()
        invariant
            i <= dims@.len(),
            forall|k: int| 0 <= k < i ==> #[trigger] dims@[k] > 0,
        decreases dims@.len() - i,
    {
        if dims[i] <= 0 {
            return false;
        }
        i += 1;
    }
    true
}

/// Whether the trailing extents of a shape are the given ones.
fn has_suffix(dims: &[i64], suffix: &[i64]) -> (r: bool)
    ensures
        r == ends_with(dims@, suffix@),
{
    if suffix.len() > dims.len() {
        return false;
    }
    let tail: &[i64] = vstd::slice::slice_subrange(dims, dims.len() - suffix.len(), dims.len());
    assert(tail@ =~= dims@.skip(dims@.len() - suffix@.len()));
    same_dims(tail, suffix)
}

impl Tensor {
    /// The refusal of a parameter with other extents or of another graph.
    fn check_parameter(
        &self,
        parameter: &Tensor,
        dims: &[i64],
        bad_dims: &'static str,
        bad_graph: &'static str,
    ) -> (r: Result<(), Error>)
        requires
            self.wf(),
            parameter.wf(),
        ensures
            match r {
                Ok(_) => parameter_refusal(self@, parameter@, dims@, bad_dims, bad_graph) is None,
                Err(e) => parameter_refusal(self@, parameter@, dims@, bad_dims, bad_graph) == Some(
                    e,
                ),
            },
    {
        if !same_dims(parameter.shape(), dims) {
            return Err(err(bad_dims));
        }
        if !self.same_graph(parameter) {
            return Err(err(bad_graph));
        }
        Ok(())
    }

    /// The refusal of an optional parameter.
    fn check_optional(
        &self,
        parameter: Option<&Tensor>,
        dims: &[i64],
        bad_dims: &'static str,
        bad_graph: &'static str,
    ) -> (r: Result<(), Error>)
        requires
            self.wf(),
            parameter is Some ==> parameter->0.wf(),
        ensures
            match r {
                Ok(_) => optional_refusal(self@, operand(parameter), dims@, bad_dims, bad_graph)
                    is None,
                Err(e) => optional_refusal(self@, operand(parameter), dims@, bad_dims, bad_graph)
                    == Some(e),
            },
    {
        match parameter {
            Some(parameter) => self.check_parameter(parameter, dims, bad_dims, bad_graph),
            None => Ok(()),
        }
    }

    /// Elementwise Gaussian log density, parameterized by mean and log standard
    /// deviation: `-0.5 * ((self - mean) * exp(-log_std))^2 - log_std -
    /// 0.5 * ln(2 * pi)`. All shapes and graphs must match.
    pub fn normal_log_prob(
        &self,
        graph: &mut Graph,
        mean: &Tensor,
        log_std: &Tensor,
    ) -> (r: Result<Tensor, Error>)
        requires
            old(graph).wf(),
            old(graph).owns(*self),
            old(graph).admits(*mean),
            old(graph).admits(*log_std),
        ensures
            final(graph).extends(*old(graph)),
            final(graph).yields(r, self.expr().normal_log_prob(mean.expr(), log_std.expr())),
    {
        if !self.same_graph(mean) || !same_dims(self.shape(), mean.shape()) || !self.same_graph(
            log_std,
        ) || !same_dims(self.shape(), log_std.shape()) {
            return Err(err("normal log-prob parameters must match value graph and shape"));
        }
        proof {
            reveal(Expr::mul_scalar);
            reveal(Expr::add_scalar);
            reveal(Expr::filled);
        }
        let deviation: Tensor = self.sub(graph, mean)?;
        let inverse: Tensor = log_std.neg(graph)?.exp(graph)?;
        let normalized: Tensor = deviation.mul(graph, &inverse)?;
        let squared: Tensor = normalized.mul(graph, &normalized)?;
        let halved: Tensor = squared.mul_scalar(graph, Scalar::Bits(F32_NEG_HALF))?;
        halved.sub(graph, log_std)?.add_scalar(graph, Scalar::Bits(NEG_HALF_LN_TAU))
    }

    /// Inverted dropout with an explicit same-shaped F32 keep mask: zero drops
    /// an element, anything else keeps it. Kept values are divided by the keep
    /// probability, a value in (0, 1] given by its F32 bits.
    pub fn dropout_with_mask(
        &self,
        graph: &mut Graph,
        keep_mask: &Tensor,
        keep_probability: u32,
    ) -> (r: Result<Tensor, Error>)
        requires
            old(graph).wf(),
            old(graph).owns(*self),
            old(graph).admits(*keep_mask),
        ensures
            final(graph).extends(*old(graph)),
            final(graph).yields(r, self.expr().dropout_with_mask(keep_mask.expr(), keep_probability)),
    {
        if !is_positive_finite(keep_probability) || order(keep_probability) > order(F32_ONE) {
            return Err(err("dropout keep probability must be finite and in (0, 1]"));
        }
        if !self.same_graph(keep_mask) || !same_dims(self.shape(), keep_mask.shape()) {
            return Err(err("dropout mask must match input graph and shape"));
        }
        let zero: Tensor = self.filled(graph, Scalar::Bits(F32_ZERO))?;
        let divisor: Tensor = self.filled(graph, Scalar::Bits(keep_probability))?;
        keep_mask.select(graph, self, &zero)?.div(graph, &divisor)
    }

    /// Elementwise Huber loss for same-shaped targets. With residual r it is
    /// `0.5 * r^2` for `|r| <= delta`, else `delta * (|r| - 0.5 * delta)`. Delta
    /// is finite and positive, given by its F32 bits.
    #[verifier::rlimit(30)]
    pub fn huber_loss(
        &self,
        graph: &mut Graph,
        targets: &Tensor,
        delta: u32,
    ) -> (r: Result<Tensor, Error>)
        requires
            old(graph).wf(),
            old(graph).owns(*self),
            old(graph).admits(*targets),
        ensures
            final(graph).extends(*old(graph)),
            final(graph).yields(r, self.expr().huber_loss(targets.expr(), delta)),
    {
        if !is_positive_finite(delta) {
            return Err(err("Huber delta must be finite and positive"));
        }
        if !self.same_graph(targets) || !same_dims(self.shape(), targets.shape()) {
            return Err(err("Huber targets must match prediction graph and shape"));
        }
        proof {
            reveal(Expr::mul_scalar);
        }
        let residual: Tensor = self.sub(graph, targets)?;
        let magnitude: Tensor = residual.abs(graph)?;
        let limit: Tensor = self.filled(graph, Scalar::Bits(delta))?;
        let quadratic: Tensor = magnitude.le_mask(graph, &limit)?;
        let zero: Tensor = self.filled(graph, Scalar::Bits(F32_ZERO))?;
        let safe: Tensor = quadratic.select(graph, &residual, &zero)?;
        let squared: Tensor = safe.mul_scalar(graph, Scalar::Bits(F32_HALF))?.mul(graph, &safe)?;
        let half: Tensor = limit.mul_scalar(graph, Scalar::Bits(F32_HALF))?;
        let linear: Tensor = magnitude.sub(graph, &half)?.mul_scalar(graph, Scalar::Bits(delta))?;
        quadratic.select(graph, &squared, &linear)
    }

    /// Elementwise binary cross entropy from logits and same-shape targets,
    /// without materializing probabilities.
    pub fn binary_cross_entropy_with_logits(
        &self,
        graph: &mut Graph,
        targets: &Tensor,
    ) -> (r: Result<Tensor, Error>)
        requires
            old(graph).wf(),
            old(graph).owns(*self),
            old(graph).admits(*targets),
        ensures
            final(graph).extends(*old(graph)),
            final(graph).yields(r, self.expr().binary_cross_entropy_with_logits(targets.expr())),
    {
        if !self.same_graph(targets) {
            return Err(err("cross-graph binary cross entropy targets"));
        }
        if !same_dims(self.shape(), targets.shape()) {
            return Err(err("binary cross entropy targets must match logits shape"));
        }
        proof {
            reveal(Expr::add_scalar);
        }
        let softened: Tensor = self.neg(graph)?.softplus(graph)?;
        let positive: Tensor = targets.mul(graph, &softened)?;
        let rest: Tensor = targets.neg(graph)?.add_scalar(graph, Scalar::Bits(F32_ONE))?;
        let softened: Tensor = self.softplus(graph)?;
        let negative: Tensor = rest.mul(graph, &softened)?;
        positive.add(graph, &negative)
    }

    /// Per-example cross entropy from logits and I32 class indices, whose shape
    /// omits the class axis. An index outside the classes gives a NaN loss at
    /// its position.
    #[verifier::rlimit(40)]
    pub fn cross_entropy_with_indices(
        &self,
        graph: &mut Graph,
        targets: &Tensor,
        axis: usize,
    ) -> (r: Result<Tensor, Error>)
        requires
            old(graph).wf(),
            old(graph).owns(*self),
            old(graph).admits(*targets),
        ensures
            final(graph).extends(*old(graph)),
            final(graph).yields(r, self.expr().cross_entropy_with_indices(targets.expr(), axis)),
    {
        if !self.same_graph(targets) {
            return Err(err("cross-graph cross entropy indices"));
        }
        if axis >= self.shape().len() || self.shape()[axis] == 0 {
            return Err(err("cross entropy requires a nonempty class axis"));
        }
        let mut dims: Vec<i64> = vstd::slice::slice_to_vec(self.shape());
        let classes: i64 = dims.remove(axis);
        if !same_dims(targets.shape(), dims.as_slice()) {
            return Err(err("cross entropy index shape must omit the class axis"));
        }
        proof {
            lemma_volume_nonnegative(self@.dims);
        }
        let mut expanded: Vec<i64> = vstd::slice::slice_to_vec(dims.as_slice());
        expanded.insert(axis, 1);
        let likelihood: Tensor = self.log_softmax(graph, axis)?;
        let indices: Tensor = targets.reshape(graph, expanded.as_slice())?;
        let chosen: Tensor = likelihood.take_along_axis(graph, &indices, axis)?;
        let loss: Tensor = chosen.reshape(graph, dims.as_slice())?.neg(graph)?;
        let zero: Tensor = graph.scalar_i32(0)?;
        let zero: Tensor = zero.broadcast_to(graph, dims.as_slice())?;
        let last: i32 = if classes - 1 <= i32::MAX as i64 {
            (classes - 1) as i32
        } else {
            i32::MAX
        };
        let last: Tensor = graph.scalar_i32(last)?;
        let last: Tensor = last.broadcast_to(graph, dims.as_slice())?;
        let low: Tensor = zero.le_mask(graph, targets)?;
        let high: Tensor = targets.le_mask(graph, &last)?;
        let valid: Tensor = low.mul(graph, &high)?;
        let nan: Tensor = graph.scalar(Scalar::Bits(F32_NAN))?;
        let nan: Tensor = nan.broadcast_to(graph, dims.as_slice())?;
        valid.select(graph, &loss, &nan)
    }

    /// Cross entropy from logits and dense target probabilities,
    /// `-sum(targets * log_softmax(logits), axis)`, without batch reduction.
    pub fn cross_entropy_with_probs(
        &self,
        graph: &mut Graph,
        targets: &Tensor,
        axis: usize,
    ) -> (r: Result<Tensor, Error>)
        requires
            old(graph).wf(),
            old(graph).owns(*self),
            old(graph).admits(*targets),
        ensures
            final(graph).extends(*old(graph)),
            final(graph).yields(r, self.expr().cross_entropy_with_probs(targets.expr(), axis)),
    {
        if !self.same_graph(targets) {
            return Err(err("cross-graph cross entropy targets"));
        }
        if !same_dims(self.shape(), targets.shape()) {
            return Err(err("cross entropy targets must match logits shape"));
        }
        proof {
            reveal(Expr::reduce);
        }
        let axes: Vec<usize> = vec![axis];
        assert(axes@ =~= seq![axis]);
        let weighted: Tensor = self.log_softmax(graph, axis)?.mul(graph, targets)?;
        weighted.sum(graph, axes.as_slice(), false)?.neg(graph)
    }

    /// Deviations scaled and shifted along an axis.
    fn standardized(
        &self,
        graph: &mut Graph,
        axis: usize,
        mean: &Tensor,
        variance: &Tensor,
        weight: &Tensor,
        bias: &Tensor,
        epsilon: u32,
    ) -> (r: Result<Tensor, Error>)
        requires
            old(graph).wf(),
            old(graph).owns(*self),
            old(graph).owns(*mean),
            old(graph).owns(*variance),
            old(graph).owns(*weight),
            old(graph).owns(*bias),
        ensures
            final(graph).extends(*old(graph)),
            final(graph).yields(r, self.expr().standardized(axis, mean.expr(), variance.expr(), weight.expr(), bias.expr(), epsilon)),
    {
        proof {
            reveal(Expr::standardized);
            reveal(Expr::add_scalar);
        }
        let axes: Vec<usize> = vec![axis];
        assert(axes@ =~= seq![axis]);
        let shifted: Tensor = variance.add_scalar(graph, Scalar::Bits(epsilon))?;
        let scale: Tensor = shifted.rsqrt(graph)?.mul(graph, weight)?;
        let center: Tensor = mean.broadcast_in_dim(graph, self.shape(), axes.as_slice())?;
        let centered: Tensor = self.sub(graph, &center)?;
        let scale: Tensor = scale.broadcast_in_dim(graph, self.shape(), axes.as_slice())?;
        let scaled: Tensor = centered.mul(graph, &scale)?;
        let summand: Tensor = bias.broadcast_in_dim(graph, self.shape(), axes.as_slice())?;
        scaled.add(graph, &summand)
    }

    /// Batch normalization with supplied running statistics: `(x - mean) *
    /// rsqrt(variance + epsilon) * weight + bias`. All four parameters have
    /// shape `[channels]`; epsilon is finite and positive, given by its F32
    /// bits.
    pub fn batch_norm_inference(
        &self,
        graph: &mut Graph,
        axis: usize,
        mean: &Tensor,
        variance: &Tensor,
        weight: &Tensor,
        bias: &Tensor,
        epsilon: u32,
    ) -> (r: Result<Tensor, Error>)
        requires
            old(graph).wf(),
            old(graph).owns(*self),
            old(graph).admits(*mean),
            old(graph).admits(*variance),
            old(graph).admits(*weight),
            old(graph).admits(*bias),
        ensures
            final(graph).extends(*old(graph)),
            final(graph).yields(r, self.expr().batch_norm_inference(axis, mean@, variance@, weight@, bias@, epsilon)),
    {
        if axis >= self.shape().len() || self.shape()[axis] <= 0 || !is_positive_finite(epsilon) {
            return Err(
                err("BatchNorm requires a nonempty channel axis and finite positive epsilon"),
            );
        }
        let channels: Vec<i64> = vec![self.shape()[axis]];
        assert(channels@ =~= seq![self@.dims[axis as int]]);
        let bad_dims: &'static str = "BatchNorm parameters must have shape [channels]";
        let bad_graph: &'static str = "cross-graph BatchNorm parameter";
        self.check_parameter(mean, channels.as_slice(), bad_dims, bad_graph)?;
        self.check_parameter(variance, channels.as_slice(), bad_dims, bad_graph)?;
        self.check_parameter(weight, channels.as_slice(), bad_dims, bad_graph)?;
        self.check_parameter(bias, channels.as_slice(), bad_dims, bad_graph)?;
        self.standardized(graph, axis, mean, variance, weight, bias, epsilon)
    }

    /// Batch normalization over all axes except one, with the population
    /// statistics of the batch, which are returned beside the output.
    pub fn batch_norm_training(
        &self,
        graph: &mut Graph,
        axis: usize,
        weight: &Tensor,
        bias: &Tensor,
        epsilon: u32,
    ) -> (r: Result<BatchNormTraining, Error>)
        requires
            old(graph).wf(),
            old(graph).owns(*self),
            old(graph).admits(*weight),
            old(graph).admits(*bias),
        ensures
            final(graph).extends(*old(graph)),
            match r {
                Ok(training) => {
                    &&& final(graph).owns(training.output)
                    &&& final(graph).owns(training.mean)
                    &&& final(graph).owns(training.variance)
                    &&& self.expr().batch_norm_training(axis, weight@, bias@, epsilon) == Expr::Is(
                        training.output@,
                    )
                    &&& self.expr().batch_mean(axis) == Expr::Is(training.mean@)
                    &&& self.expr().batch_variance(axis) == Expr::Is(training.variance@)
                },
                Err(e) => self.expr().batch_norm_training(axis, weight@, bias@, epsilon)
                    == Expr::Fails(e),
            },
    {
        if axis >= self.shape().len() || self.shape()[axis] <= 0 || !is_positive_finite(epsilon) {
            return Err(
                err("BatchNorm requires a nonempty channel axis and finite positive epsilon"),
            );
        }
        let channels: Vec<i64> = vec![self.shape()[axis]];
        assert(channels@ =~= seq![self@.dims[axis as int]]);
        let bad_dims: &'static str = "BatchNorm affine parameters must have shape [channels]";
        let bad_graph: &'static str = "cross-graph BatchNorm affine parameter";
        self.check_parameter(weight, channels.as_slice(), bad_dims, bad_graph)?;
        self.check_parameter(bias, channels.as_slice(), bad_dims, bad_graph)?;
        let rank: usize = self.shape().len();
        let mut axes: Vec<usize> = axis_span(0, axis);
        let mut later: Vec<usize> = axis_span(axis + 1, rank);
        axes.append(&mut later);
        assert(axes@ =~= other_axes(rank as nat, axis));
        let (mean, variance): (Tensor, Tensor) = self.moments(graph, axes.as_slice(), false, 0)?;
        let output: Tensor = self.batch_norm_inference(
            graph,
            axis,
            &mean,
            &variance,
            weight,
            bias,
            epsilon,
        )?;
        Ok(BatchNormTraining { output, mean, variance })
    }

    /// Apply `x @ weight.T + bias` to the last axis. Weights are laid out
    /// `[out, in]`; leading axes are kept.
    pub fn linear(
        &self,
        graph: &mut Graph,
        weight: &Tensor,
        bias: Option<&Tensor>,
    ) -> (r: Result<Tensor, Error>)
        requires
            old(graph).wf(),
            old(graph).owns(*self),
            old(graph).admits(*weight),
            bias is Some ==> old(graph).admits(*bias->0),
        ensures
            final(graph).extends(*old(graph)),
            final(graph).yields(r, self.expr().linear(weight.expr(), operand(bias))),
    {
        let rank: usize = self.shape().len();
        if rank == 0 || weight.shape().len() != 2 || self.shape()[rank - 1] != weight.shape()[1] {
            return Err(err("Linear requires input [..., in] and weight [out, in]"));
        }
        if !self.same_graph(weight) {
            return Err(err("cross-graph Linear weight"));
        }
        let outputs: Vec<i64> = vec![weight.shape()[0]];
        assert(outputs@ =~= seq![weight@.dims[0]]);
        self.check_optional(
            bias,
            outputs.as_slice(),
            "Linear bias must have shape [out]",
            "cross-graph Linear bias",
        )?;
        let permutation: Vec<usize> = vec![1, 0];
        assert(permutation@ =~= seq![1, 0]);
        proof {
            reveal(Expr::matmul);
        }
        let transposed: Tensor = weight.transpose(graph, permutation.as_slice())?;
        let output: Tensor = self.matmul(graph, &transposed)?;
        match bias {
            Some(bias) => {
                let summand: Tensor = bias.broadcast_to(graph, output.shape())?;
                output.add(graph, &summand)
            },
            None => Ok(output),
        }
    }

    /// Deviations from the mean over their root mean square.
    fn normalized(
        &self,
        graph: &mut Graph,
        axes: &[usize],
        epsilon: u32,
    ) -> (r: Result<Tensor, Error>)
        requires
            old(graph).wf(),
            old(graph).owns(*self),
        ensures
            final(graph).extends(*old(graph)),
            final(graph).yields(r, self.expr().normalized(axes@, epsilon)),
    {
        proof {
            reveal(Expr::normalized);
            reveal(Expr::mean);
            reveal(Expr::reduce);
            reveal(Expr::mul_scalar);
            reveal(Expr::add_scalar);
        }
        let level: Tensor = self.mean(graph, axes, true)?;
        let level: Tensor = level.broadcast_to(graph, self.shape())?;
        let centered: Tensor = self.sub(graph, &level)?;
        let spread: Tensor = centered.square(graph)?.mean(graph, axes, true)?;
        let inverse: Tensor = spread.add_scalar(graph, Scalar::Bits(epsilon))?.rsqrt(graph)?;
        let inverse: Tensor = inverse.broadcast_to(graph, self.shape())?;
        centered.mul(graph, &inverse)
    }

    /// Normalize over trailing extents by two-pass population statistics, with
    /// optional affine tensors of exactly those extents. Epsilon is finite and
    /// positive, given by its F32 bits.
    pub fn layer_norm(
        &self,
        graph: &mut Graph,
        normalized_shape: &[i64],
        weight: Option<&Tensor>,
        bias: Option<&Tensor>,
        epsilon: u32,
    ) -> (r: Result<Tensor, Error>)
        requires
            old(graph).wf(),
            old(graph).owns(*self),
            weight is Some ==> old(graph).admits(*weight->0),
            bias is Some ==> old(graph).admits(*bias->0),
        ensures
            final(graph).extends(*old(graph)),
            final(graph).yields(r, self.expr().layer_norm(normalized_shape@, operand(weight), operand(bias), epsilon)),
            layer_norm_error(
                self@,
                normalized_shape@,
                operand(weight),
                operand(bias),
                epsilon,
            ) is Some ==> *final(graph) == *old(graph),
    {
        if normalized_shape.len() == 0 || !are_positive(normalized_shape) || !has_suffix(
            self.shape(),
            normalized_shape,
        ) || !is_positive_finite(epsilon) {
            return Err(
                err(
                    "LayerNorm requires nonempty matching trailing dimensions and finite positive epsilon",
                ),
            );
        }
        let bad_dims: &'static str = "LayerNorm affine shape must equal normalized_shape";
        let bad_graph: &'static str = "cross-graph LayerNorm affine tensor";
        self.check_optional(weight, normalized_shape, bad_dims, bad_graph)?;
        self.check_optional(bias, normalized_shape, bad_dims, bad_graph)?;
        let rank: usize = self.shape().len();
        let axes: Vec<usize> = axis_span(rank - normalized_shape.len(), rank);
        let output: Tensor = self.normalized(graph, axes.as_slice(), epsilon)?;
        let output: Tensor = match weight {
            Some(weight) => {
                let factor: Tensor = weight.broadcast_to(graph, self.shape())?;
                output.mul(graph, &factor)?
            },
            None => output,
        };
        match bias {
            Some(bias) => {
                let summand: Tensor = bias.broadcast_to(graph, self.shape())?;
                output.add(graph, &summand)
            },
            None => Ok(output),
        }
    }

    /// Group normalization of `[N, C, ...]` data, independently per sample and
    /// channel group, with optional affine tensors of shape `[C]`. Epsilon is
    /// finite and positive, given by its F32 bits.
    pub fn group_norm(
        &self,
        graph: &mut Graph,
        groups: i64,
        weight: Option<&Tensor>,
        bias: Option<&Tensor>,
        epsilon: u32,
    ) -> (r: Result<Tensor, Error>)
        requires
            old(graph).wf(),
            old(graph).owns(*self),
            weight is Some ==> old(graph).admits(*weight->0),
            bias is Some ==> old(graph).admits(*bias->0),
        ensures
            final(graph).extends(*old(graph)),
            final(graph).yields(r, self.expr().group_norm(groups, operand(weight), operand(bias), epsilon)),
            group_norm_error(self@, groups, operand(weight), operand(bias), epsilon) is Some
                ==> *final(graph) == *old(graph),
    {
        let refusal: Error = err(
            "GroupNorm requires [N,C,...], nonempty groups dividing C, nonempty spatial axes and finite positive epsilon",
        );
        let rank: usize = self.shape().len();
        if rank < 2 || groups <= 0 {
            return Err(refusal);
        }
        let inner: &[i64] = vstd::slice::slice_subrange(self.shape(), 1, rank);
        assert(inner@ =~= self@.dims.skip(1));
        if !are_positive(inner) {
            return Err(refusal);
        }
        let channels: i64 = self.shape()[1];
        assert(self@.dims.skip(1)[0] == channels);
        if channels % groups != 0 || !is_positive_finite(epsilon) {
            return Err(refusal);
        }
        let affine: Vec<i64> = vec![channels];
        assert(affine@ =~= seq![channels]);
        let bad_affine: &'static str = "GroupNorm affine tensors must have shape [C] in the input graph";
        self.check_optional(weight, affine.as_slice(), bad_affine, bad_affine)?;
        self.check_optional(bias, affine.as_slice(), bad_affine, bad_affine)?;
        let spatial: &[i64] = vstd::slice::slice_subrange(self.shape(), 2, rank);
        let mut dims: Vec<i64> = vec![self.shape()[0], groups, channels / groups];
        dims.extend_from_slice(spatial);
        assert(dims@ =~= grouped(self@.dims, groups));
        let split: Tensor = self.reshape(graph, dims.as_slice())?;
        let trailing: &[i64] = vstd::slice::slice_subrange(dims.as_slice(), 2, dims.len());
        assert(trailing@ =~= grouped(self@.dims, groups).skip(2));
        let normalized: Tensor = split.layer_norm(graph, trailing, None, None, epsilon)?;
        let output: Tensor = normalized.reshape(graph, self.shape())?;
        let axes: Vec<usize> = vec![1];
        assert(axes@ =~= seq![1]);
        let output: Tensor = match weight {
            Some(weight) => {
                let factor: Tensor = weight.broadcast_in_dim(graph, self.shape(), axes.as_slice())?;
                output.mul(graph, &factor)?
            },
            None => output,
        };
        match bias {
            Some(bias) => {
                let summand: Tensor = bias.broadcast_in_dim(graph, self.shape(), axes.as_slice())?;
                output.add(graph, &summand)
            },
            None => Ok(output),
        }
    }
}

} // verus!
