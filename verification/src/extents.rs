//! The extents that the larger operations promise of their results.
use crate::boxes::{coordinate, is_boxes};
use crate::contraction::free_axes;
use crate::convolution::conv_shape;
use crate::facts::{group_extents, reduced_dims};
use crate::graph::{applied, typed, Expr, Value};
use crate::indexing::{joined, stacked_all, two};
use crate::matmul::{batch_of, broadcast_shape, lhs_matrix, rhs_matrix};
use crate::op::{Conv2dOptions, Pool2dOptions};
use crate::pooling::pool_shape;
use crate::rotary::RotaryLayout;
use crate::scans::{lemma_concatenated, lemma_doubling_failed, Combine};
use crate::shape::gathered;
use crate::sound::taken;
use vstd::prelude::*;

verus! {

/// Whether an expression, where it is a value, has the given extents.
pub open spec fn shaped(e: Expr, dims: Seq<i64>) -> bool {
    e matches Expr::Is(y) ==> y.dims == dims
}

/// Elementwise losses and densities have the extents of their operand.
pub proof fn elementwise_losses_keep_the_extents(
    x: Value,
    y: Expr,
    z: Expr,
    delta: u32,
    keep_probability: u32,
)
    ensures
        shaped(Expr::Is(x).normal_log_prob(y, z), x.dims),
        shaped(Expr::Is(x).dropout_with_mask(y, keep_probability), x.dims),
        shaped(Expr::Is(x).huber_loss(y, delta), x.dims),
        shaped(Expr::Is(x).binary_cross_entropy_with_logits(y), x.dims),
        shaped(Expr::Is(x).logaddexp(y), x.dims),
{
    broadcast use group_extents;

    lemma_logaddexp(x, y);
}

proof fn lemma_logaddexp(x: Value, y: Expr)
    ensures
        shaped(Expr::Is(x).logaddexp(y), x.dims),
{
    broadcast use group_extents;

    reveal(Expr::logaddexp);
    reveal(applied);
}

/// Cross entropies remove the class axis.
pub proof fn class_losses_remove_the_axis(x: Value, targets: Expr, axis: usize)
    ensures
        shaped(
            Expr::Is(x).cross_entropy_with_indices(targets, axis),
            x.dims.remove(axis as int),
        ),
        shaped(
            Expr::Is(x).cross_entropy_with_probs(targets, axis),
            reduced_dims(x.dims, seq![axis], false),
        ),
{
    broadcast use group_extents;

}

/// Normalizations have the extents of their operand.
pub proof fn normalizations_keep_the_extents(
    x: Value,
    axis: usize,
    dims: Seq<i64>,
    groups: i64,
    weight: Option<Value>,
    bias: Option<Value>,
    epsilon: u32,
)
    ensures
        shaped(Expr::Is(x).softmax(axis), x.dims),
        shaped(Expr::Is(x).log_softmax(axis), x.dims),
        shaped(Expr::Is(x).layer_norm(dims, weight, bias, epsilon), x.dims),
        shaped(Expr::Is(x).group_norm(groups, weight, bias, epsilon), x.dims),
        weight matches Some(w) ==> shaped(Expr::Is(x).rms_norm(Expr::Is(w), epsilon), x.dims),
{
    broadcast use group_extents;

    reveal(Expr::normalized);
    reveal(Expr::log_softmax);
}

/// Batch normalization keeps the extents of its operand, and its statistics
/// have one entry per channel.
pub proof fn batch_normalization_keeps_the_extents(
    x: Value,
    axis: usize,
    mean: Value,
    variance: Value,
    weight: Value,
    bias: Value,
    epsilon: u32,
)
    ensures
        shaped(
            Expr::Is(x).batch_norm_inference(axis, mean, variance, weight, bias, epsilon),
            x.dims,
        ),
        shaped(Expr::Is(x).batch_norm_training(axis, weight, bias, epsilon), x.dims),
{
    broadcast use group_extents;

    reveal(Expr::standardized);
}

/// Moments and log-sum-exp have the reduced extents, mean and variance alike.
pub proof fn statistics_have_the_reduced_extents(
    x: Value,
    axes: Seq<usize>,
    keepdims: bool,
    correction: usize,
)
    ensures
        shaped(Expr::Is(x).logsumexp(axes, keepdims), reduced_dims(x.dims, axes, keepdims)),
        shaped(
            Expr::Is(x).moments_mean(axes, keepdims, correction),
            reduced_dims(x.dims, axes, keepdims),
        ),
        shaped(
            Expr::Is(x).variance(axes, keepdims, correction),
            reduced_dims(x.dims, axes, keepdims),
        ),
{
    broadcast use group_extents;

}

/// Gathers have the extents of their indices: in place of one axis, or at
/// every position.
pub proof fn gathers_have_the_extents_of_their_indices(x: Value, indices: Value, axis: usize)
    ensures
        shaped(
            Expr::Is(x).take(Expr::Is(indices), axis),
            taken(x.dims, indices.dims, axis),
        ),
        shaped(Expr::Is(x).take_along_axis(Expr::Is(indices), axis), indices.dims),
{
    reveal(applied);
}

/// The largest values and their indices have the requested number on the axis;
/// an ordering has the extents of its operand.
pub proof fn selections_have_the_requested_extents(
    x: Value,
    k: usize,
    axis: usize,
    descending: bool,
)
    requires
        k <= i64::MAX,
    ensures
        shaped(Expr::Is(x).topk_indices(k, axis), x.dims.update(axis as int, k as i64)),
        shaped(Expr::Is(x).topk_values(k, axis), x.dims.update(axis as int, k as i64)),
        shaped(Expr::Is(x).argsort(axis, descending), x.dims),
        shaped(Expr::Is(x).argmax(axis, false), x.dims.remove(axis as int)),
        shaped(Expr::Is(x).argmax(axis, true), x.dims.remove(axis as int).insert(axis as int, 1)),
{
    broadcast use group_extents;

    reveal(applied);
    reveal(typed);
}

/// Convolutions and pools have the computed extents, channels last.
pub proof fn windows_have_the_computed_extents(
    x: Value,
    kernel: Value,
    options: Conv2dOptions,
    pool: Pool2dOptions,
    count_include_pad: bool,
)
    ensures
        Expr::Is(x).conv2d(Expr::Is(kernel), options) matches Expr::Is(y) ==> conv_shape(
            x.dims,
            kernel.dims,
            options,
        ) == Ok::<Seq<i64>, crate::error::Error>(y.dims),
        Expr::Is(x).max_pool2d(pool) matches Expr::Is(y) ==> pool_shape(x.dims, pool) == Ok::<
            Seq<i64>,
            crate::error::Error,
        >(y.dims),
        Expr::Is(x).avg_pool2d(pool, count_include_pad) matches Expr::Is(y) ==> pool_shape(
            x.dims,
            pool,
        ) == Ok::<Seq<i64>, crate::error::Error>(y.dims),
{
    broadcast use group_extents;

    reveal(applied);
    reveal(typed);
}

/// Rotary embeddings keep the extents.
pub proof fn rotations_keep_the_extents(
    x: Value,
    cos: Expr,
    sin: Expr,
    angles: Expr,
    layout: RotaryLayout,
)
    ensures
        shaped(Expr::Is(x).rotary_embedding(cos, sin, layout), x.dims),
        shaped(Expr::Is(x).rotary_embedding_angles(angles, layout), x.dims),
{
    broadcast use group_extents;

    lemma_rotary(x, cos, sin, layout);
    lemma_rotary(x, angles.cos(), angles.sin(), layout);
}

proof fn lemma_rotary(x: Value, cos: Expr, sin: Expr, layout: RotaryLayout)
    ensures
        shaped(Expr::Is(x).rotary_embedding(cos, sin, layout), x.dims),
{
    broadcast use group_extents;

    reveal(Expr::rotary_embedding);
    let e = Expr::Is(x);
    if layout == RotaryLayout::SplitHalf && e.rotary_embedding(cos, sin, layout) is Is {
        let z = e.rotary_embedding(cos, sin, layout)->Is_0;
        let axis = (x.dims.len() - 1) as usize;
        let half = x.dims.update(axis as int, (x.dims.last() / 2) as i64);
        let cosine = cos.broadcast_to(half);
        let sine = sin.broadcast_to(half).given(cosine);
        let (a, b0) = e.rotary_pair(half, layout);
        let b = b0.given(a);
        let first = a.mul(cosine).sub(b.mul(sine)).given(b).given(sine);
        let second = b.mul(cosine).add(a.mul(sine));
        lemma_concatenated(first->Is_0, second->Is_0, z, axis);
        assert(z.dims =~= x.dims);
    }
}

/// One stage of a doubling scan keeps the extents.
proof fn lemma_stage(x: Value, axis: usize, length: i64, offset: i64)
    requires
        axis < x.dims.len(),
        x.dims[axis as int] == length,
        0 < offset < length,
    ensures
        shaped(Expr::Is(x).doubling_stage(axis, length, offset), x.dims),
{
    broadcast use group_extents;

    let e = Expr::Is(x);
    if e.doubling_stage(axis, length, offset) is Is {
        let z = e.doubling_stage(axis, length, offset)->Is_0;
        let prefix = e.narrow(axis, 0, offset);
        let late = e.narrow(axis, offset, (length - offset) as i64).given(prefix);
        let tail = late.logaddexp(e.narrow(axis, 0, (length - offset) as i64));
        assert(late is Is) by {
            reveal(Expr::logaddexp);
        }
        lemma_logaddexp(late->Is_0, e.narrow(axis, 0, (length - offset) as i64));
        lemma_concatenated(prefix->Is_0, tail->Is_0, z, axis);
        assert(z.dims =~= x.dims);
    }
}

pub(crate) proof fn lemma_doubling(x: Value, axis: usize, length: i64, offset: i64)
    requires
        axis < x.dims.len(),
        x.dims[axis as int] == length,
        0 < offset,
    ensures
        shaped(Expr::Is(x).doubling(axis, length, offset), x.dims),
    decreases length - offset,
{
    if offset < length {
        lemma_stage(x, axis, length, offset);
        if offset < length - offset {
            match Expr::Is(x).doubling_stage(axis, length, offset) {
                Expr::Is(y) => {
                    lemma_doubling(y, axis, length, (offset * 2) as i64);
                },
                Expr::Fails(e) => {
                    lemma_doubling_failed(e, axis, length, (offset * 2) as i64);
                },
            }
        }
    }
}

/// A scan by pairs keeps the extents.
pub(crate) proof fn lemma_prefix_tree(x: Value, axis: usize, combine: Combine, length: int)
    requires
        axis < x.dims.len(),
        x.dims[axis as int] == length,
    ensures
        shaped(Expr::Is(x).prefix_tree(axis, combine, length), x.dims),
{
    broadcast use group_extents;

    let e = Expr::Is(x);
    let y = e.prefix_tree(axis, combine, length);
    if length > 1 && !x.dims.contains(0) && y is Is {
        reveal(Expr::assembled);
        let odds = e.paired(axis, combine, length).prefix_tree(axis, combine, length / 2);
        let even = e.every_other(axis, 0);
        let pairs = length / 2;
        let remaining = length - pairs - 1;
        let first = e.narrow(axis, 0, 1);
        let evens = if remaining == 0 {
            first
        } else {
            let earlier = odds.narrow(axis, 0, remaining as i64).given(first);
            let own = even.narrow(axis, 1, remaining as i64).given(earlier);
            joined(two(first, earlier.combined(own, combine).given(own)), axis)
        };
        let merged = stacked_all(
            two(evens.narrow(axis, 0, pairs as i64), odds),
            (axis + 1) as usize,
        ).reshape(x.dims.update(axis as int, (2 * pairs) as i64));
        assert(y == e.assembled(even, odds, axis, combine, length));
        if length % 2 == 0 {
            assert(y->Is_0.dims =~= x.dims);
        } else {
            let last = evens.narrow(axis, pairs as i64, 1);
            lemma_concatenated(merged->Is_0, last->Is_0, y->Is_0, axis);
            assert(y->Is_0.dims =~= x.dims);
        }
    }
}

/// Scans keep the extents of their operand.
pub proof fn scans_keep_the_extents(
    x: Value,
    multiplier: Expr,
    initial: Expr,
    axis: usize,
    combine: Combine,
)
    ensures
        shaped(Expr::Is(x).cumsum(axis), x.dims),
        shaped(Expr::Is(x).scanned(axis, combine), x.dims),
        shaped(Expr::Is(x).logcumsumexp(axis), x.dims),
        shaped(Expr::Is(x).affine_scan(multiplier, axis), x.dims),
        shaped(Expr::Is(x).affine_scan_from(multiplier, initial, axis), x.dims),
{
    broadcast use group_extents;

    if axis < x.dims.len() {
        lemma_prefix_tree(x, axis, combine, x.dims[axis as int] as int);
        lemma_doubling(x, axis, x.dims[axis as int], 1);
    }
}

/// The extents of a matrix product: the broadcast batch, then the rows and
/// columns of the operands that are not vectors.
pub open spec fn product_dims(x: Seq<i64>, y: Seq<i64>) -> Seq<i64> {
    let a = lhs_matrix(x);
    let b = rhs_matrix(y);
    let rows = if x.len() == 1 {
        Seq::empty()
    } else {
        seq![a[a.len() - 2]]
    };
    let columns = if y.len() == 1 {
        Seq::empty()
    } else {
        seq![b[b.len() - 1]]
    };
    broadcast_shape(batch_of(a), batch_of(b)) + rows + columns
}

/// A matrix product has the broadcast batch with the outer extents.
pub proof fn products_have_the_outer_extents(x: Value, y: Value)
    ensures
        shaped(Expr::Is(x).matmul(Expr::Is(y)), product_dims(x.dims, y.dims)),
{
    broadcast use group_extents;

    reveal(Expr::matmul);
    reveal(applied);
    let batch = broadcast_shape(batch_of(lhs_matrix(x.dims)), batch_of(rhs_matrix(y.dims)));
    let a = lhs_matrix(x.dims);
    let b = rhs_matrix(y.dims);
    assert(batch + seq![a[a.len() - 2], b[b.len() - 1]] =~= batch + seq![a[a.len() - 2]] + seq![
        b[b.len() - 1],
    ]);
}

/// A contraction has the batch extents, then the free ones of each operand, in
/// their order.
pub proof fn contractions_order_their_axes(
    x: Value,
    y: Value,
    lhs_contract: Seq<usize>,
    rhs_contract: Seq<usize>,
    lhs_batch: Seq<usize>,
    rhs_batch: Seq<usize>,
)
    ensures
        shaped(
            Expr::Is(x).dot_general(
                Expr::Is(y),
                lhs_contract,
                rhs_contract,
                lhs_batch,
                rhs_batch,
            ),
            gathered(x.dims, lhs_batch) + gathered(
                x.dims,
                free_axes(x.dims.len(), lhs_contract + lhs_batch),
            ) + gathered(y.dims, free_axes(y.dims.len(), rhs_contract + rhs_batch)),
        ),
{
    broadcast use group_extents;

    reveal(Expr::dot_general);
}

/// Attention has the broadcast batch, the number of queries and the depth of
/// the values; with grouped heads, the layout of the queries.
pub proof fn attention_has_a_row_per_query(
    q: Value,
    k: Value,
    v: Value,
    mask: Option<Expr>,
    scale: Option<u32>,
)
    ensures
        shaped(
            Expr::Is(q).scaled_dot_product_attention(Expr::Is(k), Expr::Is(v), mask, scale),
            broadcast_shape(
                broadcast_shape(batch_of(q.dims), batch_of(k.dims)),
                batch_of(v.dims),
            ) + seq![q.dims[q.dims.len() - 2], v.dims[v.dims.len() - 1]],
        ),
        shaped(
            Expr::Is(q).grouped_query_attention(Expr::Is(k), Expr::Is(v), mask, scale),
            q.dims.update(q.dims.len() - 1, v.dims[v.dims.len() - 1]),
        ),
{
    broadcast use group_extents;

    reveal(Expr::scaled_dot_product_attention);
    reveal(typed);
}

/// One coordinate of boxes has their leading extents.
proof fn lemma_coordinate(x: Value, index: int)
    requires
        0 <= index < 4,
        x.dims.len() <= usize::MAX,
    ensures
        coordinate(Expr::Is(x), index) matches Expr::Is(c) ==> is_boxes(x.dims) && c.dims
            == x.dims.drop_last(),
{
    broadcast use group_extents;

    if coordinate(Expr::Is(x), index) is Is {
        let axis = (x.dims.len() - 1) as usize;
        let parts = Seq::new(
            x.dims[axis as int] as nat,
            |i: int| Expr::Is(x).narrow(axis, i as i64, 1).reshape(x.dims.remove(axis as int)),
        );
        crate::autodiff::lemma_collected(parts);
        assert(parts[index] == Expr::Is(coordinate(Expr::Is(x), index)->Is_0));
        assert(x.dims.remove(axis as int) =~= x.dims.drop_last());
    }
}

/// The area of boxes has their leading extents.
pub proof fn areas_drop_the_coordinates(x: Value)
    requires
        x.dims.len() <= usize::MAX,
    ensures
        shaped(Expr::Is(x).box_area(), x.dims.drop_last()),
{
    broadcast use group_extents;

    reveal(Expr::box_area);
    lemma_coordinate(x, 0);
    lemma_coordinate(x, 1);
    lemma_coordinate(x, 2);
    lemma_coordinate(x, 3);
}

/// Overlaps of boxes have the broadcast leading extents.
pub proof fn overlaps_broadcast_the_leading_extents(x: Value, y: Value, generalized: bool)
    requires
        x.dims.len() <= usize::MAX,
        y.dims.len() <= usize::MAX,
    ensures
        shaped(
            Expr::Is(x).box_overlap(Expr::Is(y), generalized),
            broadcast_shape(x.dims, y.dims).drop_last(),
        ),
{
    broadcast use group_extents;

    let shape = broadcast_shape(x.dims, y.dims);
    let a = Expr::Is(x).broadcast_to(shape);
    let b = Expr::Is(y).broadcast_to(shape);
    if Expr::Is(x).box_overlap(Expr::Is(y), generalized) is Is {
        reveal(Expr::overlap_of);
        reveal(Expr::share_of);
        reveal(Expr::less_enclosure);
        reveal(Expr::box_span);
        assert(a is Is);
        areas_drop_the_coordinates(a->Is_0);
        lemma_coordinate(a->Is_0, 0);
        lemma_coordinate(a->Is_0, 1);
        lemma_coordinate(a->Is_0, 2);
        lemma_coordinate(a->Is_0, 3);
    }
}

} // verus!
