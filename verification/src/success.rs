//! Which constructions always succeed, and with what extents and element types.
use crate::dtype::DType;
use crate::elements::lemma_total_step;
use crate::graph::{applied, scalar, scalar_i32, typed, types_of, Expr, Value};
use crate::indexing::{
    concatenated, first_misfit, join_error, joined, lemma_collect_ok, narrowing, slices_of,
    stack_error, stacked, stacked_all, two, unbound,
};
use crate::op::{Binary, Comparison, IntegerBinary, OpModel, Scalar, SliceAxis, Unary};
use crate::ops::{broadcasts, increasing};
use crate::scans::{lemma_doubling_failed, unit, Combine};
use crate::shape::{lemma_volume_nonnegative, span, volume};
use crate::sound::{axis_total, slice_dims, slice_extent, slice_fits};
use crate::statistics::interleaved;
use vstd::prelude::*;

verus! {

/// Whether an expression is a value of a graph with given extents and element
/// type.
pub open spec fn made(e: Expr, graph: u64, dims: Seq<i64>, dtype: DType) -> bool {
    e matches Expr::Is(v) && v.graph == graph && v.dims == dims && v.dtype == dtype
}

/// Smaller extents have an element count where larger ones have.
pub(crate) proof fn lemma_volume_smaller(a: Seq<i64>, b: Seq<i64>)
    requires
        a.len() == b.len(),
        volume(b) is Some,
        forall|i: int| 0 <= i < a.len() ==> 0 <= #[trigger] a[i] <= b[i],
    ensures
        volume(a) is Some,
        volume(a)->Some_0 <= volume(b)->Some_0,
    decreases a.len(),
{
    if a.len() > 0 {
        let (fa, fb) = (a.drop_last(), b.drop_last());
        assert forall|i: int| 0 <= i < fa.len() implies 0 <= #[trigger] fa[i] <= fb[i] by {
            assert(0 <= a[i] <= b[i]);
        }
        lemma_volume_smaller(fa, fb);
        assert(0 <= a[a.len() - 1] <= b[a.len() - 1]);
        let (m, n) = (volume(fa)->Some_0 as int, volume(fb)->Some_0 as int);
        let (x, y) = (a.last() as int, b.last() as int);
        assert(0 <= m * x <= n * y) by (nonlinear_arith)
            requires
                0 <= m <= n,
                0 <= x <= y,
        ;
    }
}

/// A unit axis keeps the element count.
pub(crate) proof fn lemma_volume_unit(dims: Seq<i64>, axis: int)
    requires
        0 <= axis <= dims.len(),
        volume(dims) is Some,
    ensures
        volume(dims.insert(axis, 1)) == volume(dims),
    decreases dims.len(),
{
    let wide = dims.insert(axis, 1);
    if axis == dims.len() {
        assert(wide.drop_last() =~= dims);
        assert(wide.last() == 1);
        let n = volume(dims)->Some_0;
        assert(n * 1 == n);
        lemma_volume_bound(dims);
    } else {
        assert(wide.drop_last() =~= dims.drop_last().insert(axis, 1));
        assert(wide.last() == dims.last());
        lemma_volume_unit(dims.drop_last(), axis);
    }
}

/// Without a unit axis there is an element count where there is one with it.
proof fn lemma_volume_without_unit(dims: Seq<i64>, axis: int)
    requires
        0 <= axis <= dims.len(),
        volume(dims.insert(axis, 1)) is Some,
    ensures
        volume(dims) is Some,
    decreases dims.len(),
{
    let wide = dims.insert(axis, 1);
    if axis == dims.len() {
        assert(wide.drop_last() =~= dims);
    } else {
        assert(wide.drop_last() =~= dims.drop_last().insert(axis, 1));
        assert(wide.last() == dims.last());
        lemma_volume_without_unit(dims.drop_last(), axis);
        lemma_volume_unit(dims.drop_last(), axis);
    }
}

/// An element count fits.
proof fn lemma_volume_bound(dims: Seq<i64>)
    requires
        volume(dims) is Some,
    ensures
        volume(dims)->Some_0 <= usize::MAX,
{
}

/// Splitting an even axis into pairs keeps the element count.
pub(crate) proof fn lemma_volume_pairs(dims: Seq<i64>, axis: int, half: i64)
    requires
        0 <= axis < dims.len(),
        0 <= half,
        dims[axis] == 2 * half,
        volume(dims) is Some,
    ensures
        volume(dims.update(axis, half).insert(axis + 1, 2)) == volume(dims),
    decreases dims.len(),
{
    let wide = dims.update(axis, half).insert(axis + 1, 2);
    if axis == dims.len() - 1 {
        let front = dims.drop_last();
        assert(wide.drop_last() =~= front.push(half));
        assert(front.push(half).drop_last() =~= front);
        assert(wide.last() == 2);
        reveal_with_fuel(volume, 3);
        assert(dims.last() == 2 * half);
        let n = volume(front)->Some_0 as int;
        let h = half as int;
        assert(n * (2 * h) == (n * h) * 2) by (nonlinear_arith);
        assert(0 <= n * h <= n * (2 * h)) by (nonlinear_arith)
            requires
                n >= 0,
                h >= 0,
        ;
        assert(volume(front.push(half)) == Some((n * h) as nat));
    } else {
        assert(wide.drop_last() =~= dims.drop_last().update(axis, half).insert(axis + 1, 2));
        assert(wide.last() == dims.last());
        lemma_volume_pairs(dims.drop_last(), axis, half);
    }
}

pub(crate) proof fn lemma_made_unary(x: Expr, op: Unary, graph: u64, dims: Seq<i64>)
    requires
        made(x, graph, dims, DType::F32),
        volume(dims) is Some,
    ensures
        made(x.unary(op), graph, dims, DType::F32),
{
    reveal(applied);
}

pub(crate) proof fn lemma_made_shaped(x: Expr, op: OpModel, graph: u64, dims: Seq<i64>)
    requires
        made(x, graph, dims, DType::F32),
        volume(dims) is Some,
        op == OpModel::StopGradient || op == OpModel::IsFiniteMask || op == OpModel::Relu || op
            == OpModel::Sigmoid || op == OpModel::Softplus,
    ensures
        made(x.same_shaped(op), graph, dims, DType::F32),
{
    reveal(applied);
}

pub(crate) proof fn lemma_made_binary(x: Expr, y: Expr, op: Binary, graph: u64, dims: Seq<i64>)
    requires
        made(x, graph, dims, DType::F32),
        made(y, graph, dims, DType::F32),
        volume(dims) is Some,
    ensures
        made(x.binary(y, op), graph, dims, DType::F32),
{
    reveal(applied);
}

pub(crate) proof fn lemma_made_arithmetic(x: Expr, y: Expr, op: Binary, graph: u64, dims: Seq<i64>)
    requires
        made(x, graph, dims, DType::I32),
        made(y, graph, dims, DType::I32),
        volume(dims) is Some,
        op != Binary::Div,
    ensures
        made(x.arithmetic(y, op), graph, dims, DType::I32),
{
    reveal(typed);
}

pub(crate) proof fn lemma_made_bitwise(
    x: Expr,
    y: Expr,
    op: IntegerBinary,
    graph: u64,
    dims: Seq<i64>,
)
    requires
        made(x, graph, dims, DType::I32),
        made(y, graph, dims, DType::I32),
        volume(dims) is Some,
    ensures
        made(x.integer_binary(y, op), graph, dims, DType::I32),
{
    reveal(typed);
    reveal(applied);
}

/// A scalar can be broadcast to any extents.
pub(crate) proof fn lemma_made_everywhere(x: Expr, graph: u64, dims: Seq<i64>, dtype: DType)
    requires
        made(x, graph, Seq::empty(), dtype),
        volume(dims) is Some,
    ensures
        made(x.broadcast_to(dims), graph, dims, dtype),
{
    reveal(applied);
    assert(span(dims.len(), dims.len()) =~= Seq::empty());
    let axes = span(dims.len(), dims.len());
    assert(increasing(axes));
    assert(broadcasts(Seq::empty(), dims, axes));
    if dims == Seq::<i64>::empty() {
        assert(span(0, 0) =~= axes);
    }
}

pub(crate) proof fn lemma_made_scalars(graph: u64, value: i32, bits: Scalar)
    ensures
        made(scalar_i32(graph, value), graph, Seq::empty(), DType::I32),
        made(scalar(graph, bits), graph, Seq::empty(), DType::F32),
{
    reveal(applied);
    reveal(typed);
    assert(volume(Seq::<i64>::empty()) == Some(1nat));
}

pub(crate) proof fn lemma_made_filled(x: Expr, value: i32, bits: Scalar, graph: u64, dims: Seq<i64>)
    requires
        x is Is,
        x->Is_0.graph == graph,
        x->Is_0.dims == dims,
        volume(dims) is Some,
    ensures
        made(x.filled_i32(value), graph, dims, DType::I32),
        made(x.filled(bits), graph, dims, DType::F32),
{
    reveal(Expr::filled);
    lemma_made_scalars(graph, value, bits);
    lemma_made_everywhere(scalar_i32(graph, value), graph, dims, DType::I32);
    lemma_made_everywhere(scalar(graph, bits), graph, dims, DType::F32);
}

pub(crate) proof fn lemma_made_compared(x: Expr, y: Expr, graph: u64, dims: Seq<i64>)
    requires
        made(x, graph, dims, DType::I32),
        made(y, graph, dims, DType::I32),
        volume(dims) is Some,
    ensures
        made(x.le_mask(y), graph, dims, DType::F32),
{
    reveal(applied);
}

pub(crate) proof fn lemma_made_ordered(
    x: Expr,
    y: Expr,
    comparison: Comparison,
    graph: u64,
    dims: Seq<i64>,
)
    requires
        made(x, graph, dims, DType::F32),
        made(y, graph, dims, DType::F32),
        volume(dims) is Some,
    ensures
        made(x.compared(y, comparison), graph, dims, DType::F32),
{
    reveal(applied);
}

/// A value can be broadcast to extents that its own fit, aligned to the right.
pub(crate) proof fn lemma_made_broadcast(
    x: Expr,
    graph: u64,
    from: Seq<i64>,
    dims: Seq<i64>,
    dtype: DType,
)
    requires
        made(x, graph, from, dtype),
        from.len() <= dims.len() <= usize::MAX + 1,
        volume(dims) is Some,
        forall|i: int|
            0 <= i < from.len() ==> (#[trigger] from[i] == 1 || from[i] == dims[i + dims.len()
                - from.len()]),
    ensures
        made(x.broadcast_to(dims), graph, dims, dtype),
{
    reveal(applied);
    let axes = span((dims.len() - from.len()) as nat, dims.len());
    assert(increasing(axes));
    assert(broadcasts(from, dims, axes));
}

pub(crate) proof fn lemma_made_select(
    m: Expr,
    x: Expr,
    y: Expr,
    graph: u64,
    dims: Seq<i64>,
    dtype: DType,
)
    requires
        made(m, graph, dims, DType::F32),
        made(x, graph, dims, dtype),
        made(y, graph, dims, dtype),
        volume(dims) is Some,
    ensures
        made(m.select(x, y), graph, dims, dtype),
{
    reveal(applied);
}

pub(crate) proof fn lemma_made_reshape(
    x: Expr,
    graph: u64,
    from: Seq<i64>,
    dims: Seq<i64>,
    dtype: DType,
)
    requires
        made(x, graph, from, dtype),
        volume(dims) is Some,
        volume(dims) == volume(from),
    ensures
        made(x.reshape(dims), graph, dims, dtype),
{
    reveal(applied);
}

/// Slices that stay within the extents do not misfit.
proof fn lemma_fits(dims: Seq<i64>, axes: Seq<SliceAxis>, axis: nat)
    requires
        axes.len() == dims.len(),
        forall|i: int| 0 <= i < axes.len() ==> slice_fits(#[trigger] axes[i], dims[i]),
    ensures
        first_misfit(dims, axes, axis) is None,
    decreases axes.len() - axis,
{
    if axis < axes.len() {
        lemma_fits(dims, axes, axis + 1);
    }
}

/// A static slice that stays within the extents succeeds.
pub(crate) proof fn lemma_made_sliced(
    x: Expr,
    axes: Seq<SliceAxis>,
    graph: u64,
    dims: Seq<i64>,
    dtype: DType,
)
    requires
        made(x, graph, dims, dtype),
        volume(dims) is Some,
        axes.len() == dims.len(),
        forall|i: int| 0 <= i < axes.len() ==> slice_fits(#[trigger] axes[i], dims[i]),
    ensures
        made(x.sliced(axes), graph, slice_dims(axes), dtype),
        volume(slice_dims(axes)) is Some,
{
    reveal(applied);
    lemma_fits(dims, axes, 0);
    let short = slice_dims(axes);
    assert forall|i: int| 0 <= i < short.len() implies 0 <= #[trigger] short[i] <= dims[i] by {
        assert(slice_fits(axes[i], dims[i]));
        let span = axes[i].limit - axes[i].start;
        let stride = axes[i].stride as int;
        let extent = slice_extent(axes[i]);
        assert(0 <= extent <= span) by (nonlinear_arith)
            requires
                extent == (span + stride - 1) / stride,
                span >= 0,
                stride > 0,
        ;
    }
    lemma_volume_smaller(short, dims);
}

/// A region within an axis can be narrowed to.
pub(crate) proof fn lemma_made_narrow(
    x: Expr,
    axis: usize,
    start: i64,
    length: i64,
    graph: u64,
    dims: Seq<i64>,
    dtype: DType,
)
    requires
        made(x, graph, dims, dtype),
        volume(dims) is Some,
        axis < dims.len(),
        0 <= start,
        0 <= length,
        start + length <= dims[axis as int],
    ensures
        made(x.narrow(axis, start, length), graph, dims.update(axis as int, length), dtype),
        volume(dims.update(axis as int, length)) is Some,
{
    reveal(Expr::narrow);
    lemma_volume_nonnegative(dims);
    let axes = narrowing(dims, axis, start, length);
    assert forall|i: int| 0 <= i < axes.len() implies slice_fits(#[trigger] axes[i], dims[i]) by {
        assert(dims[i] >= 0);
    }
    lemma_made_sliced(x, axes, graph, dims, dtype);
    assert forall|i: int| 0 <= i < dims.len() implies #[trigger] slice_dims(axes)[i] == dims.update(
        axis as int,
        length,
    )[i] by {
        assert(axes[i].stride == 1);
        assert(slice_extent(axes[i]) == axes[i].limit - axes[i].start);
    }
    assert(slice_dims(axes) =~= dims.update(axis as int, length));
}

/// Two values that agree but for an axis can be joined along it.
pub(crate) proof fn lemma_made_joined(
    x: Expr,
    y: Expr,
    axis: usize,
    graph: u64,
    dims: Seq<i64>,
    first: i64,
    second: i64,
    dtype: DType,
)
    requires
        axis < dims.len(),
        first + second == dims[axis as int],
        made(x, graph, dims.update(axis as int, first), dtype),
        made(y, graph, dims.update(axis as int, second), dtype),
        volume(dims) is Some,
        first >= 0,
        second >= 0,
    ensures
        made(joined(two(x, y), axis), graph, dims, dtype),
{
    reveal(concatenated);
    reveal(applied);
    let args = seq![x->Is_0, y->Is_0];
    assert(args.take(0).len() == 0);
    lemma_total_step(args, axis, 0);
    lemma_total_step(args, axis, 1);
    assert(args.take(2) =~= args);
    reveal_with_fuel(join_error, 3);
    assert(axis_total(args, axis) == dims[axis as int]);
    assert(args[0].dims.update(axis as int, dims[axis as int]) =~= dims);
    assert(types_of(args)[0] == dtype && types_of(args)[1] == dtype);
}

/// The totals of leading values grow with their number.
proof fn lemma_total_grows(args: Seq<Value>, axis: usize, count: int)
    requires
        0 <= count <= args.len(),
        forall|k: int| 0 <= k < args.len() ==> (#[trigger] args[k]).dims[axis as int] >= 0,
    ensures
        axis_total(args.take(count), axis) <= axis_total(args, axis),
    decreases args.len() - count,
{
    if count < args.len() {
        lemma_total_grows(args, axis, count + 1);
        lemma_total_step(args, axis, count);
        assert(args[count].dims[axis as int] >= 0);
    } else {
        assert(args.take(count) =~= args);
    }
}

/// Values that agree but for an axis, on which their extents add up, can be
/// joined along it.
pub(crate) proof fn lemma_made_concatenated(
    args: Seq<Value>,
    axis: usize,
    graph: u64,
    dims: Seq<i64>,
    dtype: DType,
)
    requires
        args.len() > 0,
        axis < dims.len(),
        volume(dims) is Some,
        forall|k: int|
            0 <= k < args.len() ==> (#[trigger] args[k]).graph == graph && args[k].dtype == dtype
                && args[k].dims[axis as int] >= 0 && args[k].dims == dims.update(
                axis as int,
                args[k].dims[axis as int],
            ),
        axis_total(args, axis) == dims[axis as int],
    ensures
        made(concatenated(args, axis), graph, dims, dtype),
{
    reveal(concatenated);
    reveal(applied);
    let a = axis as int;
    lemma_joinable(args, axis, graph, dims, args.len());
    assert(args[0].graph == graph);
    assert(args[0].dims.update(a, dims[a]) =~= dims);
    assert forall|k: int| 0 <= k < args.len() implies #[trigger] types_of(args)[k] == dtype by {
        assert(args[k].dtype == dtype);
    }
    if args.len() == 1 {
        assert(args.take(0).len() == 0);
        lemma_total_step(args, axis, 0);
        assert(args.take(1) =~= args);
        assert(args[0].dims[a] == dims[a]);
        assert(args[0].dims =~= dims);
        assert(args[0].dtype == dtype);
    }
}

/// No value is refused among values that agree but for an axis.
proof fn lemma_joinable(args: Seq<Value>, axis: usize, graph: u64, dims: Seq<i64>, count: nat)
    requires
        count <= args.len(),
        axis < dims.len(),
        forall|k: int|
            0 <= k < args.len() ==> (#[trigger] args[k]).graph == graph
                && args[k].dims[axis as int] >= 0 && args[k].dims == dims.update(
                axis as int,
                args[k].dims[axis as int],
            ),
        axis_total(args, axis) == dims[axis as int],
    ensures
        join_error(args, axis, count) is None,
    decreases count,
{
    if count > 0 {
        lemma_joinable(args, axis, graph, dims, (count - 1) as nat);
        lemma_total_grows(args, axis, count as int);
        assert(args[count - 1].graph == graph && args[0].graph == graph);
        assert(args[count - 1].dims == dims.update(axis as int, args[count - 1].dims[axis as int]));
        assert(args[0].dims == dims.update(axis as int, args[0].dims[axis as int]));
    }
}

/// Unbinding any axis succeeds, an empty one included.
pub(crate) proof fn lemma_made_unbound(x: Value, axis: usize)
    requires
        axis < x.dims.len(),
        volume(x.dims) is Some,
    ensures
        unbound(x, axis) is Ok,
        unbound(x, axis)->Ok_0.len() == x.dims[axis as int],
        forall|i: int|
            0 <= i < x.dims[axis as int] ==> made(
                Expr::Is(#[trigger] unbound(x, axis)->Ok_0[i]),
                x.graph,
                x.dims.remove(axis as int),
                x.dtype,
            ),
{
    let a = axis as int;
    let removed = x.dims.remove(a);
    lemma_volume_nonnegative(x.dims);
    let parts = Seq::new(
        x.dims[a] as nat,
        |i: int| Expr::Is(x).narrow(axis, i as i64, 1).reshape(x.dims.remove(axis as int)),
    );
    let values = Seq::new(parts.len(), |i: int| parts[i]->Is_0);
    assert(removed.insert(a, 1) =~= x.dims.update(a, 1));
    if x.dims[a] > 0 {
        lemma_volume_smaller(x.dims.update(a, 1), x.dims);
        lemma_volume_without_unit(removed, a);
    }
    assert forall|i: int| 0 <= i < parts.len() implies #[trigger] parts[i] == Expr::Is(values[i]) by {
        let region = Expr::Is(x).narrow(axis, i as i64, 1);
        lemma_made_narrow(Expr::Is(x), axis, i as i64, 1, x.graph, x.dims, x.dtype);
        lemma_volume_unit(removed, a);
        assert(removed.insert(a, 1) =~= x.dims.update(a, 1));
        lemma_made_reshape(region, x.graph, x.dims.update(a, 1), removed, x.dtype);
        assert(parts[i] == region.reshape(removed));
    }
    assert forall|i: int| 0 <= i < parts.len() implies made(
        Expr::Is(#[trigger] values[i]),
        x.graph,
        removed,
        x.dtype,
    ) by {
        let region = Expr::Is(x).narrow(axis, i as i64, 1);
        lemma_made_narrow(Expr::Is(x), axis, i as i64, 1, x.graph, x.dims, x.dtype);
        lemma_volume_unit(removed, a);
        assert(removed.insert(a, 1) =~= x.dims.update(a, 1));
        lemma_made_reshape(region, x.graph, x.dims.update(a, 1), removed, x.dtype);
        assert(parts[i] == region.reshape(removed));
    }
    lemma_collect_ok(parts, values);
}

/// Two values of equal extents can be stacked.
pub(crate) proof fn lemma_made_stacked(
    x: Expr,
    y: Expr,
    axis: usize,
    graph: u64,
    dims: Seq<i64>,
    dtype: DType,
)
    requires
        made(x, graph, dims, dtype),
        made(y, graph, dims, dtype),
        axis <= dims.len(),
        volume(dims) is Some,
        volume(dims.insert(axis as int, 2)) is Some,
    ensures
        made(stacked_all(two(x, y), axis), graph, dims.insert(axis as int, 2), dtype),
{
    reveal(stacked);
    let a = axis as int;
    let args = seq![x->Is_0, y->Is_0];
    reveal_with_fuel(stack_error, 3);
    let longer = dims.insert(a, 1);
    lemma_volume_unit(dims, a);
    lemma_made_reshape(x, graph, dims, longer, dtype);
    lemma_made_reshape(y, graph, dims, longer, dtype);
    let parts = Seq::new(args.len(), |k: int| Expr::Is(args[k]).unsqueeze(axis));
    let (first, second) = (x.unsqueeze(axis), y.unsqueeze(axis));
    let values = seq![first->Is_0, second->Is_0];
    assert(parts[0] == first && parts[1] == second);
    lemma_collect_ok(parts, values);
    let joint = dims.insert(a, 2);
    assert(joint.update(a, 1) =~= longer);
    lemma_made_joined(first, second, axis, graph, joint, 1, 1, dtype);
}

/// The stable sum of exponentials succeeds on F32 values of equal extents.
proof fn lemma_made_logaddexp(x: Expr, y: Expr, graph: u64, dims: Seq<i64>)
    requires
        made(x, graph, dims, DType::F32),
        made(y, graph, dims, DType::F32),
        volume(dims) is Some,
    ensures
        made(x.logaddexp(y), graph, dims, DType::F32),
{
    reveal(Expr::logaddexp);
    let maximum = x.maximum(y);
    lemma_made_binary(x, y, Binary::Maximum, graph, dims);
    let delta = x.sub(y);
    lemma_made_binary(x, y, Binary::Sub, graph, dims);
    lemma_made_unary(delta, Unary::Abs, graph, dims);
    lemma_made_unary(delta.abs(), Unary::Neg, graph, dims);
    lemma_made_unary(delta.abs().neg(), Unary::Exp, graph, dims);
    lemma_made_unary(delta.abs().neg().exp(), Unary::Log1p, graph, dims);
    let finite = maximum.add(delta.abs().neg().exp().log1p());
    lemma_made_binary(maximum, delta.abs().neg().exp().log1p(), Binary::Add, graph, dims);
    lemma_made_unary(x, Unary::Exp, graph, dims);
    lemma_made_unary(y, Unary::Exp, graph, dims);
    lemma_made_binary(x.exp(), y.exp(), Binary::Add, graph, dims);
    let nonfinite = x.exp().add(y.exp()).log();
    lemma_made_unary(x.exp().add(y.exp()), Unary::Log, graph, dims);
    lemma_made_shaped(maximum, OpModel::IsFiniteMask, graph, dims);
    let forward = maximum.is_finite_mask().select(finite, nonfinite);
    lemma_made_select(maximum.is_finite_mask(), finite, nonfinite, graph, dims, DType::F32);
    let left = delta.sigmoid();
    lemma_made_shaped(delta, OpModel::Sigmoid, graph, dims);
    lemma_made_unary(delta, Unary::Neg, graph, dims);
    let right = delta.neg().sigmoid();
    lemma_made_shaped(delta.neg(), OpModel::Sigmoid, graph, dims);
    let partials = seq![(x->Is_0, left->Is_0), (y->Is_0, right->Is_0)];
    let args = seq![forward->Is_0] + interleaved(partials);
    assert forall|k: int| 0 <= k < args.len() implies #[trigger] types_of(args)[k] == DType::F32 by {
        if k > 0 {
            assert(args[k] == interleaved(partials)[k - 1]);
            assert(args.len() == 5);
            assert(k == 1 || k == 2 || k == 3 || k == 4);
        }
    }
    reveal(applied);
}

/// The stable sum of exponentials takes F32 values alone.
proof fn lemma_logaddexp_takes_f32(x: Expr, y: Expr)
    requires
        x.logaddexp(y) is Is,
    ensures
        x is Is,
        x->Is_0.dtype == DType::F32,
{
    reveal(Expr::logaddexp);
    reveal(applied);
    let maximum = x.maximum(y);
    assert(maximum is Is);
}

/// Every other element along an axis that has two or more.
proof fn lemma_made_every_other(
    x: Expr,
    axis: usize,
    start: i64,
    graph: u64,
    dims: Seq<i64>,
    dtype: DType,
)
    requires
        made(x, graph, dims, dtype),
        volume(dims) is Some,
        axis < dims.len(),
        dims[axis as int] >= 2,
        start == 0 || start == 1,
    ensures
        made(
            x.every_other(axis, start),
            graph,
            dims.update(axis as int, ((dims[axis as int] - start + 1) / 2) as i64),
            dtype,
        ),
        volume(dims.update(axis as int, ((dims[axis as int] - start + 1) / 2) as i64)) is Some,
{
    let a = axis as int;
    let rank = dims.len();
    let axes = slices_of(unit(rank, axis, 0, start), dims, unit(rank, axis, 1, 2));
    lemma_volume_nonnegative(dims);
    assert forall|i: int| 0 <= i < axes.len() implies slice_fits(#[trigger] axes[i], dims[i]) by {
        assert(dims[i] >= 0);
    }
    lemma_made_sliced(x, axes, graph, dims, dtype);
    let short = dims.update(a, ((dims[a] - start + 1) / 2) as i64);
    assert forall|i: int| 0 <= i < rank implies #[trigger] slice_dims(axes)[i] == short[i] by {
        assert(dims[i] >= 0);
        if i == a {
            assert(axes[i].stride == 2);
        } else {
            assert(axes[i].stride == 1);
        }
    }
    assert(slice_dims(axes) =~= short);
}

/// The combination of two blocks succeeds on F32 values of equal extents.
proof fn lemma_made_combined(x: Expr, y: Expr, combine: Combine, graph: u64, dims: Seq<i64>)
    requires
        combine != Combine::Affine,
        made(x, graph, dims, DType::F32),
        made(y, graph, dims, DType::F32),
        volume(dims) is Some,
    ensures
        made(x.combined(y, combine), graph, dims, DType::F32),
{
    reveal(Expr::combined);
    match combine {
        Combine::LogAddExp => lemma_made_logaddexp(x, y, graph, dims),
        _ => lemma_made_binary(x, y, Binary::Mul, graph, dims),
    }
}

/// One step of a tree scan succeeds once the scan of its pairs has.
#[verifier::spinoff_prover]
proof fn lemma_made_assembled(
    x: Expr,
    even: Expr,
    odds: Expr,
    axis: usize,
    combine: Combine,
    length: int,
    graph: u64,
    dims: Seq<i64>,
)
    requires
        combine != Combine::Affine,
        axis < dims.len(),
        dims.len() <= usize::MAX,
        dims[axis as int] == length,
        length >= 2,
        volume(dims) is Some,
        made(x, graph, dims, DType::F32),
        made(even, graph, dims.update(axis as int, (length - length / 2) as i64), DType::F32),
        made(odds, graph, dims.update(axis as int, (length / 2) as i64), DType::F32),
    ensures
        made(x.assembled(even, odds, axis, combine, length), graph, dims, DType::F32),
{
    reveal(Expr::assembled);
    let a = axis as int;
    let f = DType::F32;
    let half = length / 2;
    let rest = length - half - 1;
    let longer = dims.update(a, (length - half) as i64);
    let shorter = dims.update(a, half as i64);
    lemma_volume_nonnegative(dims);
    lemma_volume_smaller(longer, dims);
    lemma_volume_smaller(shorter, dims);
    let first = x.narrow(axis, 0, 1);
    lemma_made_narrow(x, axis, 0, 1, graph, dims, f);
    let evens = if rest == 0 {
        first
    } else {
        let earlier = odds.narrow(axis, 0, rest as i64).given(first);
        let own = even.narrow(axis, 1, rest as i64).given(earlier);
        joined(two(first, earlier.combined(own, combine).given(own)), axis)
    };
    if rest == 0 {
        assert(longer =~= dims.update(a, 1));
    } else {
        let inner = dims.update(a, rest as i64);
        lemma_volume_smaller(inner, dims);
        let earlier = odds.narrow(axis, 0, rest as i64);
        lemma_made_narrow(odds, axis, 0, rest as i64, graph, shorter, f);
        assert(shorter.update(a, rest as i64) =~= inner);
        let own = even.narrow(axis, 1, rest as i64);
        lemma_made_narrow(even, axis, 1, rest as i64, graph, longer, f);
        assert(longer.update(a, rest as i64) =~= inner);
        lemma_made_combined(earlier, own, combine, graph, inner);
        assert(longer.update(a, 1) =~= dims.update(a, 1));
        lemma_made_joined(
            first,
            earlier.combined(own, combine),
            axis,
            graph,
            longer,
            1,
            rest as i64,
            f,
        );
    }
    assert(made(evens, graph, longer, f));
    let leading = evens.narrow(axis, 0, half as i64);
    lemma_made_narrow(evens, axis, 0, half as i64, graph, longer, f);
    assert(longer.update(a, half as i64) =~= shorter);
    let whole = dims.update(a, (2 * half) as i64);
    lemma_volume_smaller(whole, dims);
    lemma_volume_pairs(whole, a, half as i64);
    assert(whole.update(a, half as i64) =~= shorter);
    let next = (axis + 1) as usize;
    lemma_made_stacked(leading, odds, next, graph, shorter, f);
    let stack = stacked_all(two(leading, odds), next);
    let merged = stack.reshape(whole);
    lemma_made_reshape(stack, graph, shorter.insert(a + 1, 2), whole, f);
    if length % 2 == 0 {
        assert(whole =~= dims);
    } else {
        let last = evens.narrow(axis, half as i64, 1);
        lemma_made_narrow(evens, axis, half as i64, 1, graph, longer, f);
        assert(longer.update(a, 1) =~= dims.update(a, 1));
        lemma_made_joined(merged, last, axis, graph, dims, (2 * half) as i64, 1, f);
    }
}

/// The pairs of a tree scan succeed.
proof fn lemma_made_paired(
    x: Expr,
    axis: usize,
    combine: Combine,
    length: int,
    graph: u64,
    dims: Seq<i64>,
)
    requires
        combine != Combine::Affine,
        axis < dims.len(),
        dims[axis as int] == length,
        length >= 2,
        volume(dims) is Some,
        made(x, graph, dims, DType::F32),
    ensures
        made(
            x.paired(axis, combine, length),
            graph,
            dims.update(axis as int, (length / 2) as i64),
            DType::F32,
        ),
{
    reveal(Expr::paired);
    let a = axis as int;
    let f = DType::F32;
    let (even, odd) = (x.every_other(axis, 0), x.every_other(axis, 1));
    lemma_made_every_other(x, axis, 0, graph, dims, f);
    lemma_made_every_other(x, axis, 1, graph, dims, f);
    let longer = dims.update(a, ((dims[a] + 1) / 2) as i64);
    let shorter = dims.update(a, (length / 2) as i64);
    lemma_made_narrow(even, axis, 0, (length / 2) as i64, graph, longer, f);
    assert(longer.update(a, (length / 2) as i64) =~= shorter);
    lemma_made_combined(
        even.narrow(axis, 0, (length / 2) as i64),
        odd,
        combine,
        graph,
        shorter,
    );
}

/// A tree scan of an F32 value succeeds.
proof fn lemma_made_tree(
    x: Expr,
    axis: usize,
    combine: Combine,
    length: int,
    graph: u64,
    dims: Seq<i64>,
)
    requires
        combine != Combine::Affine,
        axis < dims.len(),
        dims.len() <= usize::MAX,
        dims[axis as int] == length,
        volume(dims) is Some,
        made(x, graph, dims, DType::F32),
    ensures
        made(x.prefix_tree(axis, combine, length), graph, dims, DType::F32),
    decreases length,
{
    if length > 1 && !dims.contains(0) {
        let a = axis as int;
        let shorter = dims.update(a, (length / 2) as i64);
        lemma_volume_nonnegative(dims);
        lemma_volume_smaller(shorter, dims);
        let pairs = x.paired(axis, combine, length);
        lemma_made_paired(x, axis, combine, length, graph, dims);
        let odds = pairs.prefix_tree(axis, combine, length / 2);
        lemma_made_tree(pairs, axis, combine, length / 2, graph, shorter);
        lemma_made_every_other(x, axis, 0, graph, dims, DType::F32);
        assert((length - 0 + 1) / 2 == length - length / 2);
        lemma_made_assembled(
            x,
            x.every_other(axis, 0),
            odds,
            axis,
            combine,
            length,
            graph,
            dims,
        );
    }
}

/// One stage of a doubling scan of an F32 value succeeds.
proof fn lemma_made_stage(
    x: Expr,
    axis: usize,
    length: i64,
    offset: i64,
    graph: u64,
    dims: Seq<i64>,
)
    requires
        axis < dims.len(),
        dims[axis as int] == length,
        0 < offset < length,
        volume(dims) is Some,
        made(x, graph, dims, DType::F32),
    ensures
        made(x.doubling_stage(axis, length, offset), graph, dims, DType::F32),
{
    let f = DType::F32;
    let rest = (length - offset) as i64;
    lemma_made_narrow(x, axis, 0, offset, graph, dims, f);
    lemma_made_narrow(x, axis, offset, rest, graph, dims, f);
    lemma_made_narrow(x, axis, 0, rest, graph, dims, f);
    let (late, early) = (x.narrow(axis, offset, rest), x.narrow(axis, 0, rest));
    lemma_made_logaddexp(late, early, graph, dims.update(axis as int, rest));
    lemma_made_joined(
        x.narrow(axis, 0, offset),
        late.logaddexp(early),
        axis,
        graph,
        dims,
        offset,
        rest,
        f,
    );
}

/// A doubling scan of an F32 value succeeds.
proof fn lemma_made_doubling(
    x: Expr,
    axis: usize,
    length: i64,
    offset: i64,
    graph: u64,
    dims: Seq<i64>,
)
    requires
        axis < dims.len(),
        dims[axis as int] == length,
        0 < offset,
        volume(dims) is Some,
        made(x, graph, dims, DType::F32),
    ensures
        made(x.doubling(axis, length, offset), graph, dims, DType::F32),
    decreases length - offset,
{
    if offset < length {
        lemma_made_stage(x, axis, length, offset, graph, dims);
        if offset < length - offset {
            lemma_made_doubling(
                x.doubling_stage(axis, length, offset),
                axis,
                length,
                (offset * 2) as i64,
                graph,
                dims,
            );
        }
    }
}

/// The cumulative log-sum-exp by a tree succeeds just where the one by doubling
/// does: along an axis of the value, if its elements are F32 or there is
/// nothing to combine. Both keep the extents.
pub proof fn tree_scans_succeed_as_doubling_scans_do(x: Value, axis: usize)
    requires
        volume(x.dims) is Some,
        x.dims.len() <= usize::MAX,
    ensures
        Expr::Is(x).logcumsumexp(axis) is Is <==> {
            &&& axis < x.dims.len()
            &&& x.dtype == DType::F32 || x.dims[axis as int] <= 1 || x.dims.contains(0)
        },
        Expr::Is(x).scanned(axis, Combine::LogAddExp) is Is <==> Expr::Is(x).logcumsumexp(
            axis,
        ) is Is,
        Expr::Is(x).logcumsumexp(axis) is Is ==> {
            &&& made(Expr::Is(x).logcumsumexp(axis), x.graph, x.dims, x.dtype)
            &&& made(
                Expr::Is(x).scanned(axis, Combine::LogAddExp),
                x.graph,
                x.dims,
                x.dtype,
            )
        },
{
    let e = Expr::Is(x);
    if axis < x.dims.len() {
        let length = x.dims[axis as int];
        if x.dtype == DType::F32 {
            lemma_made_tree(e, axis, Combine::LogAddExp, length as int, x.graph, x.dims);
            lemma_made_doubling(e, axis, length, 1, x.graph, x.dims);
        } else if length > 1 && !x.dims.contains(0) {
            let pairs = e.paired(axis, Combine::LogAddExp, length as int);
            assert(pairs is Fails) by {
                reveal(Expr::paired);
                reveal(Expr::combined);
                reveal(Expr::narrow);
                let even = e.every_other(axis, 0);
                let odd = e.every_other(axis, 1).given(even);
                let leading = even.narrow(axis, 0, (length as int / 2) as i64).given(odd);
                if leading.logaddexp(odd) is Is {
                    lemma_logaddexp_takes_f32(leading, odd);
                    reveal(applied);
                }
            }
            let odds = pairs.prefix_tree(axis, Combine::LogAddExp, length as int / 2);
            assert(odds is Fails);
            let stage = e.doubling_stage(axis, length, 1);
            assert(stage is Fails) by {
                reveal(Expr::narrow);
                let late = e.narrow(axis, 1, (length - 1) as i64).given(e.narrow(axis, 0, 1));
                let early = e.narrow(axis, 0, (length - 1) as i64);
                if late.logaddexp(early) is Is {
                    lemma_logaddexp_takes_f32(late, early);
                    reveal(applied);
                }
            }
            lemma_doubling_failed(stage->Fails_0, axis, length, 2);
        }
    }
}

} // verus!
