//! Where the elements of a value come from: operations that rearrange elements
//! copy each one from an operand.
use crate::facts::group_extents;
use crate::graph::{applied, constant_i32, Expr, Value};
use crate::indexing::{
    collect, concatenated, extended, joined, narrowing, pieces, reflect_axis, replicate_axis,
    sizes_total, slices_of, stack_error, stacked, unbound,
};
use crate::op::{OpModel, SliceAxis, Widths};
use crate::resize::{nearest_index, nearest_indices};
use crate::shape::{chosen, span, volume};
use crate::shape_ops::{flattened, moved, swapped, unflattened};
use crate::sound::{axis_total, padded, slice_dims};
use crate::success::{lemma_made_concatenated, lemma_made_unbound, lemma_volume_unit, made};
use vstd::arithmetic::div_mod::{lemma_fundamental_div_mod, lemma_fundamental_div_mod_converse};
use vstd::prelude::*;

verus! {

/// An element of a value.
pub ghost struct Element {
    pub value: Value,
    pub index: Seq<int>,
}

/// Whether an index is one of the given extents.
pub open spec fn within(dims: Seq<i64>, index: Seq<int>) -> bool {
    index.len() == dims.len() && forall|i: int|
        0 <= i < dims.len() ==> 0 <= #[trigger] index[i] < dims[i]
}

/// The row-major position of an index.
pub open spec fn ravel(dims: Seq<i64>, index: Seq<int>) -> int
    decreases dims.len(),
{
    if dims.len() == 0 {
        0
    } else {
        ravel(dims.drop_last(), index.drop_last()) * dims.last() + index.last()
    }
}

/// The index at a row-major position.
pub open spec fn unravel(dims: Seq<i64>, position: int) -> Seq<int>
    decreases dims.len(),
{
    if dims.len() == 0 {
        Seq::empty()
    } else {
        unravel(dims.drop_last(), position / dims.last() as int).push(
            position % dims.last() as int,
        )
    }
}

/// The value among those joined along an axis that holds a coordinate, and the
/// coordinate within it.
pub open spec fn part_at(args: Seq<Value>, axis: usize, at: int) -> (int, int)
    decreases args.len(),
{
    if args.len() == 0 {
        (-1, at)
    } else {
        let before = axis_total(args.drop_last(), axis);
        if at >= before {
            (args.len() - 1, at - before)
        } else {
            part_at(args.drop_last(), axis, at)
        }
    }
}

/// The source index of a broadcast.
pub open spec fn narrowed_index(from: Seq<i64>, axes: Seq<usize>, index: Seq<int>) -> Seq<int> {
    Seq::new(
        from.len(),
        |i: int|
            if from[i] == 1 {
                0
            } else {
                index[axes[i] as int]
            },
    )
}

/// The index with listed axes counted from the end.
pub open spec fn reversed_index(dims: Seq<i64>, axes: Seq<usize>, index: Seq<int>) -> Seq<int> {
    Seq::new(
        dims.len(),
        |i: int|
            if axes.contains(i as usize) {
                dims[i] - 1 - index[i]
            } else {
                index[i]
            },
    )
}

/// The source index of a transposition.
pub open spec fn permuted_index(permutation: Seq<usize>, index: Seq<int>) -> Seq<int> {
    Seq::new(permutation.len(), |i: int| index[permutation.index_of(i as usize)])
}

/// The source index of a strided slice.
pub open spec fn sliced_index(axes: Seq<SliceAxis>, index: Seq<int>) -> Seq<int> {
    Seq::new(axes.len(), |i: int| axes[i].start + index[i] * axes[i].stride)
}

/// The source index of a padding, where it is inside.
pub open spec fn unpadded_index(padding: Seq<Widths>, index: Seq<int>) -> Seq<int> {
    Seq::new(padding.len(), |i: int| index[i] - padding[i].0)
}

/// A coordinate moved into an extent.
pub open spec fn clamped(at: int, size: int) -> int {
    if at < 0 {
        0
    } else if at >= size {
        size - 1
    } else {
        at
    }
}

/// The element that an element is copied from, through every operation that
/// only rearranges.
#[verifier::opaque]
pub open spec fn origin(v: Value, index: Seq<int>) -> Element
    decreases v,
{
    let itself = Element { value: v, index };
    if v.args.len() == 0 {
        itself
    } else {
        let x = v.args[0];
        match v.op {
            OpModel::Reshape => origin(x, unravel(x.dims, ravel(v.dims, index))),
            OpModel::Broadcast { axes } => origin(x, narrowed_index(x.dims, axes, index)),
            OpModel::Transpose { permutation } => origin(x, permuted_index(permutation, index)),
            OpModel::Reverse { axes } => origin(x, reversed_index(x.dims, axes, index)),
            OpModel::Slice(axes) => origin(x, sliced_index(axes, index)),
            OpModel::Concatenate { axis } => {
                let (k, at) = part_at(v.args, axis, index[axis as int]);
                if 0 <= k < v.args.len() {
                    origin(v.args[k], index.update(axis as int, at))
                } else {
                    itself
                }
            },
            OpModel::Pad(padding) => if within(x.dims, unpadded_index(padding, index)) {
                origin(x, unpadded_index(padding, index))
            } else if v.args.len() == 2 {
                origin(v.args[1], Seq::empty())
            } else {
                itself
            },
            OpModel::Take { axis } => if v.args.len() == 2 && v.args[1].dims.len() == 1
                && v.args[1].op is ConstantI32 {
                let at = v.args[1].op->ConstantI32_0[index[axis as int]] as int;
                origin(x, index.update(axis as int, clamped(at, x.dims[axis as int] as int)))
            } else {
                itself
            },
            _ => itself,
        }
    }
}

/// The element that an element of an expression is copied from.
pub open spec fn copied(e: Expr, index: Seq<int>) -> Element {
    origin(e->Is_0, index)
}

/// The row-major position of an index leads back to it.
pub(crate) proof fn lemma_unravel(dims: Seq<i64>, index: Seq<int>)
    requires
        within(dims, index),
    ensures
        unravel(dims, ravel(dims, index)) == index,
    decreases dims.len(),
{
    if dims.len() == 0 {
        assert(index =~= Seq::empty());
    } else {
        let front = dims.drop_last();
        let before = index.drop_last();
        assert forall|i: int| 0 <= i < front.len() implies 0 <= #[trigger] before[i] < front[i] by {
            assert(0 <= index[i] < dims[i]);
        }
        lemma_unravel(front, before);
        let q = ravel(front, before);
        let d = dims.last() as int;
        let r = index.last();
        assert(0 <= index[dims.len() - 1] < dims[dims.len() - 1]);
        lemma_fundamental_div_mod_converse(q * d + r, d, q, r);
        assert(index =~= before.push(r));
    }
}

/// A unit axis does not change the row-major position.
pub(crate) proof fn lemma_ravel_unit(dims: Seq<i64>, index: Seq<int>, axis: int)
    requires
        0 <= axis <= dims.len(),
        index.len() == dims.len(),
    ensures
        ravel(dims.insert(axis, 1), index.insert(axis, 0)) == ravel(dims, index),
    decreases dims.len(),
{
    let wide = dims.insert(axis, 1);
    let longer = index.insert(axis, 0);
    if axis == dims.len() {
        assert(wide.drop_last() =~= dims);
        assert(longer.drop_last() =~= index);
    } else {
        assert(wide.drop_last() =~= dims.drop_last().insert(axis, 1));
        assert(longer.drop_last() =~= index.drop_last().insert(axis, 0));
        lemma_ravel_unit(dims.drop_last(), index.drop_last(), axis);
    }
}

/// Splitting an axis does not change the row-major position.
pub(crate) proof fn lemma_ravel_split(
    dims: Seq<i64>,
    index: Seq<int>,
    axis: int,
    outer: i64,
    inner: i64,
    p: int,
    q: int,
)
    requires
        0 <= axis < dims.len(),
        index.len() == dims.len(),
        dims[axis] == outer * inner,
        index[axis] == p * inner + q,
    ensures
        ravel(
            dims.update(axis, outer).insert(axis + 1, inner),
            index.update(axis, p).insert(axis + 1, q),
        ) == ravel(dims, index),
    decreases dims.len(),
{
    let wide = dims.update(axis, outer).insert(axis + 1, inner);
    let longer = index.update(axis, p).insert(axis + 1, q);
    if axis == dims.len() - 1 {
        let head = wide.drop_last();
        let before = longer.drop_last();
        assert(head.drop_last() =~= dims.drop_last());
        assert(before.drop_last() =~= index.drop_last());
        let r = ravel(dims.drop_last(), index.drop_last());
        assert(ravel(head, before) == r * outer + p);
        assert((r * outer + p) * inner + q == r * (outer * inner) + (p * inner + q)) by (nonlinear_arith);
    } else {
        let front = dims.drop_last();
        assert(wide.drop_last() =~= front.update(axis, outer).insert(axis + 1, inner));
        assert(longer.drop_last() =~= index.drop_last().update(axis, p).insert(axis + 1, q));
        lemma_ravel_split(front, index.drop_last(), axis, outer, inner, p, q);
    }
}

/// Reshaping keeps the row-major order: an element is copied from the one at
/// the same position.
pub proof fn reshape_keeps_the_order(x: Expr, dims: Seq<i64>, index: Seq<int>)
    requires
        x.reshape(dims) is Is,
    ensures
        copied(x.reshape(dims), index) == copied(
            x,
            unravel(x->Is_0.dims, ravel(dims, index)),
        ),
{
    reveal(applied);
    reveal(origin);
}

/// A unit axis does not move elements, whether it is inserted or removed.
pub proof fn unit_axes_hold_the_same_elements(x: Expr, axis: usize, index: Seq<int>)
    requires
        x is Is,
        axis <= index.len(),
    ensures
        x.unsqueeze(axis) is Is && within(x->Is_0.dims, index) ==> copied(
            x.unsqueeze(axis),
            index.insert(axis as int, 0),
        ) == copied(x, index),
        x.squeeze(axis) is Is && within(x->Is_0.dims.remove(axis as int), index) ==> copied(
            x.squeeze(axis),
            index,
        ) == copied(x, index.insert(axis as int, 0)),
{
    let dims = x->Is_0.dims;
    if x.unsqueeze(axis) is Is && within(dims, index) {
        let wide = dims.insert(axis as int, 1);
        reshape_keeps_the_order(x, wide, index.insert(axis as int, 0));
        lemma_ravel_unit(dims, index, axis as int);
        lemma_unravel(dims, index);
    }
    if x.squeeze(axis) is Is && within(dims.remove(axis as int), index) {
        let narrow = dims.remove(axis as int);
        let longer = index.insert(axis as int, 0);
        reshape_keeps_the_order(x, narrow, index);
        lemma_ravel_unit(narrow, index, axis as int);
        assert(narrow.insert(axis as int, 1) =~= dims);
        assert forall|i: int| 0 <= i < dims.len() implies 0 <= #[trigger] longer[i] < dims[i] by {
            if i < axis {
                assert(longer[i] == index[i] && narrow[i] == dims[i]);
            } else if i > axis {
                assert(longer[i] == index[i - 1] && narrow[i - 1] == dims[i]);
            }
        }
        lemma_unravel(dims, longer);
    }
}

/// A contiguous region holds the elements from its start on.
pub proof fn narrowing_shifts_one_axis(
    x: Expr,
    axis: usize,
    start: i64,
    length: i64,
    index: Seq<int>,
)
    requires
        x.narrow(axis, start, length) is Is,
        index.len() == x->Is_0.dims.len(),
    ensures
        copied(x.narrow(axis, start, length), index) == copied(
            x,
            index.update(axis as int, index[axis as int] + start),
        ),
{
    reveal(applied);
    reveal(origin);
    reveal(Expr::narrow);
    let axes = narrowing(x->Is_0.dims, axis, start, length);
    let shifted = index.update(axis as int, index[axis as int] + start);
    assert forall|i: int| 0 <= i < index.len() implies #[trigger] sliced_index(axes, index)[i]
        == shifted[i] by {
        assert(axes[i].stride == 1);
        assert(index[i] * 1 == index[i]);
    }
    assert(sliced_index(axes, index) =~= shifted);
}

/// A flip counts the listed axes from the end.
pub proof fn flips_count_from_the_end(x: Expr, axes: Seq<usize>, index: Seq<int>)
    requires
        x.flip(axes) is Is,
        index.len() == x->Is_0.dims.len(),
        index.len() <= usize::MAX,
    ensures
        copied(x.flip(axes), index) == copied(x, reversed_index(x->Is_0.dims, axes, index)),
{
    reveal(applied);
    reveal(origin);
    let dims = x->Is_0.dims;
    if axes.len() == 0 {
        assert(reversed_index(dims, axes, index) =~= index);
    } else {
        crate::shape::lemma_chosen(dims, axes);
        assert(reversed_index(dims, chosen(dims.len(), axes), index) =~= reversed_index(
            dims,
            axes,
            index,
        ));
    }
}

/// Flipping the same axes twice restores every element.
pub proof fn flipping_twice_restores(x: Expr, axes: Seq<usize>, index: Seq<int>)
    requires
        x.flip(axes).flip(axes) is Is,
        index.len() == x->Is_0.dims.len(),
        index.len() <= usize::MAX,
    ensures
        copied(x.flip(axes).flip(axes), index) == copied(x, index),
{
    broadcast use group_extents;

    let dims = x->Is_0.dims;
    assert(x.flip(axes) is Is);
    flips_count_from_the_end(x.flip(axes), axes, index);
    flips_count_from_the_end(x, axes, reversed_index(dims, axes, index));
    assert(reversed_index(dims, axes, reversed_index(dims, axes, index)) =~= index);
}

/// A transposition holds each element at the permuted index.
pub proof fn transposing_permutes_the_index(x: Expr, permutation: Seq<usize>, index: Seq<int>)
    requires
        x.transpose(permutation) is Is,
        index.len() == x->Is_0.dims.len(),
        index.len() <= usize::MAX,
    ensures
        copied(
            x.transpose(permutation),
            Seq::new(index.len(), |i: int| index[permutation[i] as int]),
        ) == copied(x, index),
{
    reveal(applied);
    reveal(origin);
    let found = Seq::new(index.len(), |i: int| index[permutation[i] as int]);
    crate::gradients::lemma_permutation_onto(permutation);
    assert forall|i: int| 0 <= i < index.len() implies #[trigger] permuted_index(
        permutation,
        found,
    )[i] == index[i] by {
        assert(permutation.contains(i as usize));
        let k = permutation.index_of(i as usize);
        assert(permutation[k] == i as usize);
    }
    assert(permuted_index(permutation, found) =~= index);
}

/// Moving an axis moves its coordinate and keeps the order of the others.
pub proof fn moving_an_axis_moves_its_coordinate(
    x: Expr,
    source: usize,
    destination: usize,
    index: Seq<int>,
)
    requires
        x.move_axis(source, destination) is Is,
        index.len() == x->Is_0.dims.len(),
        index.len() <= usize::MAX,
    ensures
        copied(
            x.move_axis(source, destination),
            index.remove(source as int).insert(destination as int, index[source as int]),
        ) == copied(x, index),
{
    let permutation = moved(index.len(), source, destination);
    transposing_permutes_the_index(x, permutation, index);
    assert(Seq::new(index.len(), |i: int| index[permutation[i] as int]) =~= index.remove(
        source as int,
    ).insert(destination as int, index[source as int]));
}

/// Exchanging two axes exchanges their coordinates.
pub proof fn swapping_axes_swaps_coordinates(
    x: Expr,
    first: usize,
    second: usize,
    index: Seq<int>,
)
    requires
        x.swap_axes(first, second) is Is,
        index.len() == x->Is_0.dims.len(),
        index.len() <= usize::MAX,
    ensures
        copied(
            x.swap_axes(first, second),
            index.update(first as int, index[second as int]).update(
                second as int,
                index[first as int],
            ),
        ) == copied(x, index),
{
    let permutation = swapped(index.len(), first, second);
    transposing_permutes_the_index(x, permutation, index);
    assert(Seq::new(index.len(), |i: int| index[permutation[i] as int]) =~= index.update(
        first as int,
        index[second as int],
    ).update(second as int, index[first as int]));
}

/// A broadcast repeats along singleton and new axes: with trailing axes
/// aligned, an element is copied from the index with those set to zero.
pub proof fn broadcasting_repeats(x: Expr, dims: Seq<i64>, index: Seq<int>)
    requires
        x.broadcast_to(dims) is Is,
        within(dims, index),
        dims.len() <= usize::MAX + 1,
    ensures
        copied(x.broadcast_to(dims), index) == copied(
            x,
            Seq::new(
                x->Is_0.dims.len(),
                |i: int|
                    if x->Is_0.dims[i] == 1 {
                        0
                    } else {
                        index[i + dims.len() - x->Is_0.dims.len()]
                    },
            ),
        ),
{
    reveal(applied);
    reveal(origin);
    let from = x->Is_0.dims;
    let axes = span((dims.len() - from.len()) as nat, dims.len());
    let source = Seq::new(
        from.len(),
        |i: int|
            if from[i] == 1 {
                0
            } else {
                index[i + dims.len() - from.len()]
            },
    );
    assert(narrowed_index(from, axes, index) =~= source);
    if dims == from {
        assert forall|i: int| 0 <= i < from.len() implies #[trigger] source[i] == index[i] by {
            assert(0 <= index[i] < dims[i]);
        }
        assert(source =~= index);
    }
}

/// The sum of extents of a longer prefix.
pub(crate) proof fn lemma_total_step(args: Seq<Value>, axis: usize, count: int)
    requires
        0 <= count < args.len(),
    ensures
        axis_total(args.take(count + 1), axis) == axis_total(args.take(count), axis)
            + args[count].dims[axis as int],
{
    assert(args.take(count + 1).drop_last() =~= args.take(count));
}

/// The part at a coordinate is the one that the coordinate falls in.
pub(crate) proof fn lemma_part(args: Seq<Value>, axis: usize, k: int, at: int)
    requires
        0 <= k < args.len(),
        0 <= at < args[k].dims[axis as int],
        forall|j: int| 0 <= j < args.len() ==> (#[trigger] args[j]).dims[axis as int] >= 0,
    ensures
        part_at(args, axis, axis_total(args.take(k), axis) + at) == (k, at),
        0 <= axis_total(args.take(k), axis),
        axis_total(args.take(k), axis) + args[k].dims[axis as int] <= axis_total(args, axis),
    decreases args.len(),
{
    let front = args.drop_last();
    assert(args.take(args.len() as int) =~= args);
    lemma_total_step(args, axis, args.len() - 1);
    assert(args.take(args.len() - 1) =~= front);
    lemma_total_nonnegative(args.take(k), axis);
    if k < args.len() - 1 {
        assert(front.take(k) =~= args.take(k));
        assert(front[k] == args[k]);
        assert forall|j: int| 0 <= j < front.len() implies (#[trigger] front[j]).dims[axis as int]
            >= 0 by {
            assert(front[j] == args[j]);
        }
        lemma_part(front, axis, k, at);
        assert(args[args.len() - 1].dims[axis as int] >= 0);
    }
}

proof fn lemma_total_nonnegative(args: Seq<Value>, axis: usize)
    requires
        forall|j: int| 0 <= j < args.len() ==> (#[trigger] args[j]).dims[axis as int] >= 0,
    ensures
        axis_total(args, axis) >= 0,
    decreases args.len(),
{
    if args.len() > 0 {
        let front = args.drop_last();
        assert forall|j: int| 0 <= j < front.len() implies (#[trigger] front[j]).dims[axis as int]
            >= 0 by {
            assert(front[j] == args[j]);
        }
        lemma_total_nonnegative(front, axis);
        assert(args[args.len() - 1].dims[axis as int] >= 0);
    }
}

/// Joined values follow one another along the axis: each keeps its elements,
/// shifted by the extents of those before it.
pub proof fn joined_values_follow_one_another(args: Seq<Value>, axis: usize, k: int, index: Seq<int>)
    requires
        concatenated(args, axis) is Is,
        0 <= k < args.len(),
        axis < index.len(),
        0 <= index[axis as int] < args[k].dims[axis as int],
        forall|j: int| 0 <= j < args.len() ==> (#[trigger] args[j]).dims[axis as int] >= 0,
    ensures
        copied(
            concatenated(args, axis),
            index.update(
                axis as int,
                axis_total(args.take(k), axis) + index[axis as int],
            ),
        ) == origin(args[k], index),
{
    reveal(applied);
    reveal(concatenated);
    reveal(origin);
    let shifted = index.update(
        axis as int,
        axis_total(args.take(k), axis) + index[axis as int],
    );
    lemma_part(args, axis, k, index[axis as int]);
    assert(shifted.update(axis as int, index[axis as int]) =~= index);
    if args.len() == 1 {
        assert(args.take(0).len() == 0);
        assert(shifted =~= index);
    }
}

/// A circular shift reads each coordinate from the one that many places
/// before it, modulo the extent.
pub proof fn rolling_reads_modulo_the_extent(x: Expr, shift: i64, axis: usize, index: Seq<int>)
    requires
        x.roll(shift, axis) is Is,
        within(x->Is_0.dims, index),
    ensures
        x.roll(shift, axis)->Is_0.dims == x->Is_0.dims,
        copied(x.roll(shift, axis), index) == copied(
            x,
            index.update(
                axis as int,
                (index[axis as int] - shift) % (x->Is_0.dims[axis as int] as int),
            ),
        ),
{
    broadcast use group_extents;

    let v = x->Is_0;
    let a = axis as int;
    let size = v.dims[a] as int;
    let at = index[a];
    assert(0 <= at < size);
    let distance = shift as int % size;
    lemma_fundamental_div_mod(shift as int, size);
    let turns = shift as int / size;
    assert(shift == size * turns + distance);
    if distance == 0 {
        assert(size * (-turns) + at == at - size * turns) by (nonlinear_arith);
        assert(size * (-turns) == (-turns) * size) by (nonlinear_arith);
        lemma_fundamental_div_mod_converse(at - shift, size, -turns, at);
        assert(index.update(a, at) =~= index);
    } else {
        let tail = x.narrow(axis, (size - distance) as i64, distance as i64);
        let head = x.narrow(axis, 0, (size - distance) as i64);
        assert(tail is Is && head is Is);
        let args = seq![tail->Is_0, head->Is_0];
        let y = concatenated(args, axis)->Is_0;
        crate::scans::lemma_concatenated(args[0], args[1], y, axis);
        assert(y.dims =~= v.dims);
        assert(args.take(0).len() == 0);
        lemma_total_step(args, axis, 0);
        if at < distance {
            let source = at - distance + size;
            assert(size * (-turns - 1) + source == at - distance - size * turns)
                by (nonlinear_arith)
                requires
                    source == at - distance + size,
            ;
            assert(size * (-turns - 1) == (-turns - 1) * size) by (nonlinear_arith);
            lemma_fundamental_div_mod_converse(at - shift, size, -turns - 1, source);
            joined_values_follow_one_another(args, axis, 0, index);
            assert(index.update(a, axis_total(args.take(0), axis) + at) =~= index);
            narrowing_shifts_one_axis(x, axis, (size - distance) as i64, distance as i64, index);
        } else {
            let source = at - distance;
            assert(size * (-turns) + source == at - distance - size * turns) by (nonlinear_arith)
                requires
                    source == at - distance,
            ;
            assert(size * (-turns) == (-turns) * size) by (nonlinear_arith);
            lemma_fundamental_div_mod_converse(at - shift, size, -turns, source);
            let local = index.update(a, source);
            joined_values_follow_one_another(args, axis, 1, local);
            assert(local.update(a, axis_total(args.take(1), axis) + source) =~= index);
            narrowing_shifts_one_axis(x, axis, 0, (size - distance) as i64, local);
            assert(local.update(a, source + 0) =~= local);
        }
    }
}

/// A coordinate below the total falls in some part.
pub(crate) proof fn lemma_part_found(args: Seq<Value>, axis: usize, at: int)
    requires
        0 <= at < axis_total(args, axis),
        forall|j: int| 0 <= j < args.len() ==> (#[trigger] args[j]).dims[axis as int] >= 0,
    ensures
        ({
            let (k, rest) = part_at(args, axis, at);
            &&& 0 <= k < args.len()
            &&& 0 <= rest < args[k].dims[axis as int]
            &&& at == axis_total(args.take(k), axis) + rest
        }),
    decreases args.len(),
{
    let front = args.drop_last();
    let before = axis_total(front, axis);
    assert(args.take(args.len() - 1) =~= front);
    if at < before {
        assert forall|j: int| 0 <= j < front.len() implies (#[trigger] front[j]).dims[axis as int]
            >= 0 by {
            assert(front[j] == args[j]);
        }
        lemma_part_found(front, axis, at);
        let (k, rest) = part_at(front, axis, at);
        assert(front.take(k) =~= args.take(k));
        assert(front[k] == args[k]);
    }
}

/// The pieces of a split are consecutive regions of the axis.
pub proof fn pieces_are_consecutive_regions(
    x: Value,
    axis: usize,
    sizes: Seq<i64>,
    k: int,
    index: Seq<int>,
)
    requires
        pieces(x, axis, sizes) is Ok,
        0 <= k < sizes.len(),
        index.len() == x.dims.len(),
    ensures
        pieces(x, axis, sizes)->Ok_0.len() == sizes.len(),
        pieces(x, axis, sizes)->Ok_0[k].dims == x.dims.update(axis as int, sizes[k]),
        sizes_total(sizes.take(k)) is Some,
        origin(pieces(x, axis, sizes)->Ok_0[k], index) == origin(
            x,
            index.update(axis as int, index[axis as int] + sizes_total(sizes.take(k)).unwrap()),
        ),
{
    broadcast use group_extents;

    let parts = Seq::new(
        sizes.len(),
        |k: int|
            Expr::Is(x).narrow(axis, sizes_total(sizes.take(k)).unwrap() as i64, sizes[k]),
    );
    crate::autodiff::lemma_collected(parts);
    assert(parts[k] == Expr::Is(pieces(x, axis, sizes)->Ok_0[k]));
    crate::indexing::lemma_sizes_prefix(sizes, k);
    narrowing_shifts_one_axis(
        Expr::Is(x),
        axis,
        sizes_total(sizes.take(k)).unwrap() as i64,
        sizes[k],
        index,
    );
}

/// The extents of the pieces add up to their sizes.
proof fn lemma_pieces_total(x: Value, axis: usize, sizes: Seq<i64>, count: int)
    requires
        pieces(x, axis, sizes) is Ok,
        0 <= count <= sizes.len(),
    ensures
        pieces(x, axis, sizes)->Ok_0.len() == sizes.len(),
        sizes_total(sizes.take(count)) == Some(
            axis_total(pieces(x, axis, sizes)->Ok_0.take(count), axis),
        ),
    decreases count,
{
    let values = pieces(x, axis, sizes)->Ok_0;
    pieces_are_consecutive_regions(x, axis, sizes, 0, Seq::new(x.dims.len(), |i: int| 0));
    if count > 0 {
        lemma_pieces_total(x, axis, sizes, count - 1);
        pieces_are_consecutive_regions(
            x,
            axis,
            sizes,
            count - 1,
            Seq::new(x.dims.len(), |i: int| 0),
        );
        lemma_total_step(values, axis, count - 1);
        crate::indexing::lemma_sizes_prefix(sizes, count);
        assert(sizes.take(count).drop_last() =~= sizes.take(count - 1));
    }
}

/// Joining the pieces of a split succeeds, and restores the extents, the
/// element type and every element.
pub proof fn joining_the_pieces_restores(x: Value, axis: usize, sizes: Seq<i64>, index: Seq<int>)
    requires
        pieces(x, axis, sizes) is Ok,
        volume(x.dims) is Some,
    ensures
        made(concatenated(pieces(x, axis, sizes)->Ok_0, axis), x.graph, x.dims, x.dtype),
        within(x.dims, index) ==> copied(
            concatenated(pieces(x, axis, sizes)->Ok_0, axis),
            index,
        ) == origin(x, index),
{
    let values = pieces(x, axis, sizes)->Ok_0;
    let a = axis as int;
    let origins = Seq::new(x.dims.len(), |i: int| 0int);
    pieces_are_consecutive_regions(x, axis, sizes, 0, origins);
    let parts = Seq::new(
        sizes.len(),
        |k: int|
            Expr::Is(x).narrow(axis, sizes_total(sizes.take(k)).unwrap() as i64, sizes[k]),
    );
    crate::autodiff::lemma_collected(parts);
    assert forall|j: int| 0 <= j < values.len() implies (#[trigger] values[j]).graph == x.graph
        && values[j].dtype == x.dtype && values[j].dims[a] >= 0 && values[j].dims == x.dims.update(
        a,
        values[j].dims[a],
    ) by {
        pieces_are_consecutive_regions(x, axis, sizes, j, origins);
        crate::indexing::lemma_sizes_prefix(sizes, j + 1);
        assert(sizes.take(j + 1).last() == sizes[j]);
        assert(parts[j] == Expr::Is(values[j]));
        assert(values[j].graph == x.graph && values[j].dtype == x.dtype) by {
            reveal(Expr::narrow);
            reveal(applied);
        }
    }
    lemma_pieces_total(x, axis, sizes, sizes.len() as int);
    assert(sizes.take(sizes.len() as int) =~= sizes);
    assert(values.take(sizes.len() as int) =~= values);
    lemma_made_concatenated(values, axis, x.graph, x.dims, x.dtype);
    if within(x.dims, index) {
        assert(0 <= index[a] < x.dims[a]);
        lemma_part_found(values, axis, index[a]);
        let (k, rest) = part_at(values, axis, index[a]);
        let local = index.update(a, rest);
        joined_values_follow_one_another(values, axis, k, local);
        assert(local.update(a, axis_total(values.take(k), axis) + rest) =~= index);
        pieces_are_consecutive_regions(x, axis, sizes, k, local);
        lemma_pieces_total(x, axis, sizes, k);
        assert(local.update(a, rest + axis_total(values.take(k), axis)) =~= index);
    }
}

/// The extents of joined values: those of the first, with the total on the
/// axis.
proof fn lemma_joined_extents(args: Seq<Value>, axis: usize)
    requires
        concatenated(args, axis) is Is,
    ensures
        args.len() > 0,
        axis < args[0].dims.len(),
        axis_total(args, axis) <= i64::MAX,
        concatenated(args, axis)->Is_0.dims == args[0].dims.update(
            axis as int,
            axis_total(args, axis) as i64,
        ),
{
    reveal(applied);
    reveal(concatenated);
    assert(args.take(args.len() as int) =~= args);
    if args.len() == 1 {
        reveal_with_fuel(axis_total, 2);
        assert(args.drop_last().len() == 0);
        assert(axis_total(args, axis) == args[0].dims[axis as int]);
        assert(args[0].dims =~= args[0].dims.update(
            axis as int,
            axis_total(args, axis) as i64,
        ));
    }
}

/// Values that can be stacked have equal extents.
proof fn lemma_stackable(args: Seq<Value>, count: nat)
    requires
        stack_error(args, count) is None,
        count <= args.len(),
    ensures
        forall|k: int| 0 <= k < count ==> (#[trigger] args[k]).dims == args[0].dims,
    decreases count,
{
    if count > 0 {
        lemma_stackable(args, (count - 1) as nat);
    }
}

/// Unit extents add up to their number.
proof fn lemma_units(args: Seq<Value>, axis: usize, count: int)
    requires
        0 <= count <= args.len(),
        forall|k: int| 0 <= k < args.len() ==> (#[trigger] args[k]).dims[axis as int] == 1,
    ensures
        axis_total(args.take(count), axis) == count,
    decreases count,
{
    if count > 0 {
        lemma_units(args, axis, count - 1);
        lemma_total_step(args, axis, count - 1);
        assert(args[count - 1].dims[axis as int] == 1);
    } else {
        assert(args.take(0).len() == 0);
    }
}

/// The extents of a stack, and the values that it joins.
proof fn lemma_stack(args: Seq<Value>, axis: usize)
    requires
        stacked(args, axis) is Is,
    ensures
        0 < args.len() <= i64::MAX,
        axis <= args[0].dims.len(),
        stacked(args, axis)->Is_0.dims == args[0].dims.insert(axis as int, args.len() as i64),
        forall|k: int| 0 <= k < args.len() ==> (#[trigger] args[k]).dims == args[0].dims,
        ({
            let units = collect(
                Seq::new(args.len(), |k: int| Expr::Is(args[k]).unsqueeze(axis)),
            )->Ok_0;
            &&& units.len() == args.len()
            &&& stacked(args, axis) == concatenated(units, axis)
            &&& forall|k: int|
                0 <= k < args.len() ==> Expr::Is(args[k]).unsqueeze(axis) == Expr::Is(
                    #[trigger] units[k],
                ) && units[k].dims == args[0].dims.insert(axis as int, 1)
        }),
{
    reveal(stacked);
    let a = axis as int;
    let dims = args[0].dims;
    lemma_stackable(args, args.len());
    let parts = Seq::new(args.len(), |k: int| Expr::Is(args[k]).unsqueeze(axis));
    crate::autodiff::lemma_collected(parts);
    let units = collect(parts)->Ok_0;
    let wide = dims.insert(a, 1);
    assert forall|j: int| 0 <= j < units.len() implies Expr::Is(args[j]).unsqueeze(axis) == Expr::Is(
        #[trigger] units[j],
    ) && units[j].dims == wide by {
        assert(parts[j] == Expr::Is(units[j]));
        assert(args[j].dims == dims);
        assert(parts[j] == Expr::Is(args[j]).reshape(args[j].dims.insert(a, 1)));
        reveal(applied);
    }
    lemma_units(units, axis, units.len() as int);
    assert(units.take(units.len() as int) =~= units);
    lemma_joined_extents(units, axis);
    assert(wide.update(a, args.len() as i64) =~= dims.insert(a, args.len() as i64));
}

/// A stack has one more axis, whose coordinate tells the values apart.
pub proof fn stacked_values_are_its_slices(args: Seq<Value>, axis: usize, k: int, index: Seq<int>)
    requires
        stacked(args, axis) is Is,
        0 <= k < args.len(),
    ensures
        stacked(args, axis)->Is_0.dims == args[0].dims.insert(axis as int, args.len() as i64),
        within(args[0].dims, index) ==> copied(stacked(args, axis), index.insert(axis as int, k))
            == origin(args[k], index),
{
    broadcast use group_extents;

    let a = axis as int;
    lemma_stack(args, axis);
    let units = collect(Seq::new(args.len(), |k: int| Expr::Is(args[k]).unsqueeze(axis)))->Ok_0;
    if within(args[0].dims, index) {
        assert forall|j: int| 0 <= j < units.len() implies (#[trigger] units[j]).dims[a] == 1 by {
            assert(units[j].dims == args[0].dims.insert(a, 1));
        }
        lemma_units(units, axis, k);
        let longer = index.insert(a, 0);
        joined_values_follow_one_another(units, axis, k, longer);
        assert(longer.update(a, k + 0) =~= index.insert(a, k));
        assert(Expr::Is(args[k]).unsqueeze(axis) == Expr::Is(units[k]));
        assert(args[k].dims == args[0].dims);
        unit_axes_hold_the_same_elements(Expr::Is(args[k]), axis, index);
    }
}

/// Unbinding an axis removes it, and gives its slices in order.
pub proof fn unbound_values_are_slices(x: Value, axis: usize, k: int, index: Seq<int>)
    requires
        unbound(x, axis) is Ok,
        0 <= k < x.dims[axis as int],
        within(x.dims.remove(axis as int), index),
    ensures
        unbound(x, axis)->Ok_0.len() == x.dims[axis as int],
        unbound(x, axis)->Ok_0[k].dims == x.dims.remove(axis as int),
        origin(unbound(x, axis)->Ok_0[k], index) == origin(x, index.insert(axis as int, k)),
{
    broadcast use group_extents;

    let a = axis as int;
    let removed = x.dims.remove(a);
    let parts = Seq::new(
        x.dims[a] as nat,
        |i: int| Expr::Is(x).narrow(axis, i as i64, 1).reshape(x.dims.remove(axis as int)),
    );
    crate::autodiff::lemma_collected(parts);
    assert(parts[k] == Expr::Is(unbound(x, axis)->Ok_0[k]));
    let region = Expr::Is(x).narrow(axis, k as i64, 1);
    assert(parts[k] == region.reshape(removed));
    let narrow = x.dims.update(a, 1);
    let longer = index.insert(a, 0);
    reshape_keeps_the_order(region, removed, index);
    lemma_ravel_unit(removed, index, a);
    assert(removed.insert(a, 1) =~= narrow);
    assert forall|i: int| 0 <= i < narrow.len() implies 0 <= #[trigger] longer[i] < narrow[i] by {
        if i < a {
            assert(longer[i] == index[i] && removed[i] == x.dims[i]);
        } else if i > a {
            assert(longer[i] == index[i - 1] && removed[i - 1] == x.dims[i]);
        }
    }
    lemma_unravel(narrow, longer);
    narrowing_shifts_one_axis(Expr::Is(x), axis, k as i64, 1, longer);
    assert(longer.update(a, 0 + k) =~= index.insert(a, k));
}

/// Unbinding succeeds on every axis of a value and is refused on any other. It
/// gives as many values as the axis has elements, none where it is empty, each
/// with the remaining extents.
pub proof fn unbinding_succeeds_on_every_axis(x: Value, axis: usize)
    requires
        volume(x.dims) is Some,
    ensures
        unbound(x, axis) is Ok <==> axis < x.dims.len(),
        unbound(x, axis) matches Ok(values) ==> {
            &&& values.len() == x.dims[axis as int]
            &&& forall|k: int|
                0 <= k < values.len() ==> made(
                    Expr::Is(#[trigger] values[k]),
                    x.graph,
                    x.dims.remove(axis as int),
                    x.dtype,
                )
        },
{
    if axis < x.dims.len() {
        lemma_made_unbound(x, axis);
    }
}

/// Unbinding a stack succeeds, and restores the values that were stacked in
/// their order: their number, their extents and every element.
pub proof fn unbinding_a_stack_restores(args: Seq<Value>, axis: usize, k: int, index: Seq<int>)
    requires
        stacked(args, axis) is Is,
        volume(args[0].dims) is Some,
        0 <= k < args.len(),
    ensures
        unbound(stacked(args, axis)->Is_0, axis) is Ok,
        unbound(stacked(args, axis)->Is_0, axis)->Ok_0.len() == args.len(),
        unbound(stacked(args, axis)->Is_0, axis)->Ok_0[k].dims == args[k].dims,
        within(args[k].dims, index) ==> origin(
            unbound(stacked(args, axis)->Is_0, axis)->Ok_0[k],
            index,
        ) == origin(args[k], index),
{
    let y = stacked(args, axis)->Is_0;
    let a = axis as int;
    lemma_stack(args, axis);
    stacked_values_are_its_slices(args, axis, k, index);
    assert(args[k].dims == args[0].dims);
    assert(y.dims.remove(a) =~= args[0].dims);
    assert(volume(y.dims) is Some) by {
        lemma_stack_volume(args, axis);
    }
    lemma_made_unbound(y, axis);
    assert(made(Expr::Is(unbound(y, axis)->Ok_0[k]), y.graph, args[0].dims, y.dtype));
    if within(args[k].dims, index) {
        unbound_values_are_slices(y, axis, k, index);
    }
}

/// A stack has an element count.
proof fn lemma_stack_volume(args: Seq<Value>, axis: usize)
    requires
        stacked(args, axis) is Is,
        volume(args[0].dims) is Some,
    ensures
        volume(stacked(args, axis)->Is_0.dims) is Some,
{
    reveal(concatenated);
    reveal(applied);
    lemma_stack(args, axis);
    if args.len() == 1 {
        lemma_volume_unit(args[0].dims, axis as int);
    }
}

/// Repeating elements along an axis reads each coordinate from its quotient by
/// the count.
pub proof fn repeats_read_the_quotient(x: Expr, repeats: i64, axis: usize, index: Seq<int>)
    requires
        x.repeat_interleave(repeats, axis) is Is,
        x->Is_0.dims.len() <= usize::MAX,
        volume(x->Is_0.dims) is Some,
        within(x.repeat_interleave(repeats, axis)->Is_0.dims, index),
    ensures
        x.repeat_interleave(repeats, axis)->Is_0.dims == x->Is_0.dims.update(
            axis as int,
            (x->Is_0.dims[axis as int] * repeats) as i64,
        ),
        copied(x.repeat_interleave(repeats, axis), index) == copied(
            x,
            index.update(axis as int, index[axis as int] / repeats as int),
        ),
{
    broadcast use group_extents;

    let v = x->Is_0;
    let a = axis as int;
    let n = v.dims[a];
    let r = repeats as int;
    let output = v.dims.update(a, (n * repeats) as i64);
    crate::shape::lemma_volume_nonnegative(v.dims);
    assert(n >= 0);
    assert(n * repeats >= 0) by (nonlinear_arith)
        requires
            n >= 0,
            repeats >= 0,
    ;
    if repeats == 1 {
        assert(n * 1 == n);
        assert(output =~= v.dims);
        assert(index.update(a, index[a] / 1) =~= index);
    } else {
        let wide = v.dims.insert(a + 1, repeats);
        let unit = x.unsqueeze((axis + 1) as usize);
        let spread = unit.broadcast_to(wide);
        assert(spread is Is && unit is Is);
        assert(0 <= index[a] < output[a]);
        if repeats == 0 {
            assert(n * 0 == 0);
        }
        let p = index[a] / r;
        let q = index[a] % r;
        lemma_fundamental_div_mod(index[a], r);
        assert(r * p == p * r) by (nonlinear_arith);
        assert(0 <= p < n) by (nonlinear_arith)
            requires
                index[a] == p * r + q,
                0 <= q < r,
                0 <= index[a] < n * r,
        ;
        let local = index.update(a, p);
        let full = local.insert(a + 1, q);
        reshape_keeps_the_order(spread, output, index);
        lemma_ravel_split(output, index, a, n, repeats, p, q);
        assert(output.update(a, n) =~= v.dims);
        assert forall|i: int| 0 <= i < wide.len() implies 0 <= #[trigger] full[i] < wide[i] by {
            if i < a {
                assert(full[i] == index[i] && wide[i] == output[i]);
            } else if i > a + 1 {
                assert(full[i] == index[i - 1] && wide[i] == output[i - 1]);
            }
        }
        lemma_unravel(wide, full);
        broadcasting_repeats(unit, wide, full);
        let from = v.dims.insert(a + 1, 1);
        let source = Seq::new(
            from.len(),
            |i: int|
                if from[i] == 1 {
                    0
                } else {
                    full[i + wide.len() - from.len()]
                },
        );
        assert forall|i: int| 0 <= i < from.len() implies #[trigger] source[i] == local.insert(
            a + 1,
            0,
        )[i] by {
            assert(0 <= full[i] < wide[i]);
        }
        assert(source =~= local.insert(a + 1, 0));
        assert forall|i: int| 0 <= i < v.dims.len() implies 0 <= #[trigger] local[i] < v.dims[i] by {
            if i != a {
                assert(local[i] == index[i] && output[i] == v.dims[i]);
            }
        }
        unit_axes_hold_the_same_elements(x, (axis + 1) as usize, local);
    }
}

/// The first reason against a padding is absent where every width fits.
pub(crate) proof fn lemma_padding(dims: Seq<i64>, padding: Seq<Widths>, count: nat)
    requires
        crate::indexing::pad_error(dims, padding, count) is None,
        count <= padding.len(),
    ensures
        forall|i: int|
            0 <= i < count ==> (#[trigger] padding[i]).0 >= 0 && padding[i].1 >= 0 && dims[i]
                + padding[i].0 + padding[i].1 <= i64::MAX,
    decreases count,
{
    if count > 0 {
        lemma_padding(dims, padding, (count - 1) as nat);
    }
}

/// Constant padding keeps the interior and holds the fill elsewhere.
pub proof fn padding_surrounds_the_interior(
    x: Expr,
    padding: Seq<Widths>,
    fill: Expr,
    index: Seq<int>,
)
    requires
        x.pad_with_scalar(padding, fill) is Is,
        within(padded(x->Is_0.dims, padding), index),
    ensures
        x.pad_with_scalar(padding, fill)->Is_0.dims == padded(x->Is_0.dims, padding),
        copied(x.pad_with_scalar(padding, fill), index) == if within(
            x->Is_0.dims,
            unpadded_index(padding, index),
        ) {
            copied(x, unpadded_index(padding, index))
        } else {
            copied(fill, Seq::empty())
        },
{
    reveal(applied);
    reveal(origin);
    let dims = x->Is_0.dims;
    lemma_padding(dims, padding, padding.len());
    if padded(dims, padding) == dims {
        let inner = unpadded_index(padding, index);
        assert forall|i: int| 0 <= i < dims.len() implies #[trigger] inner[i] == index[i] by {
            assert(padded(dims, padding)[i] == dims[i]);
            assert(padding[i].0 >= 0);
        }
        assert(inner =~= index);
    }
}

/// The coordinate that a position beside an axis is taken from: the nearest
/// edge, or the mirror image in it.
pub open spec fn edge_coordinate(at: int, size: int, reflect: bool) -> int {
    if !reflect {
        clamped(at, size)
    } else if at < 0 {
        -at
    } else if at >= size {
        2 * (size - 1) - at
    } else {
        at
    }
}

/// An axis extended on both sides holds the extensions around the value.
proof fn lemma_extended_axis(
    x: Value,
    axis: usize,
    low: i64,
    high: i64,
    head: Expr,
    tail: Expr,
    index: Seq<int>,
)
    requires
        ({
            let before = if low > 0 {
                seq![head]
            } else {
                Seq::empty()
            };
            let after = if high > 0 {
                seq![tail]
            } else {
                Seq::empty()
            };
            joined(collect(before + seq![Expr::Is(x)] + after), axis) is Is
        }),
        low >= 0,
        high >= 0,
        axis < x.dims.len(),
        x.dims[axis as int] >= 0,
        x.dims[axis as int] + low + high <= i64::MAX,
        low > 0 && head is Is ==> head->Is_0.dims == x.dims.update(axis as int, low),
        high > 0 && tail is Is ==> tail->Is_0.dims == x.dims.update(axis as int, high),
        index.len() == x.dims.len(),
        0 <= index[axis as int] < x.dims[axis as int] + low + high,
    ensures
        ({
            let before = if low > 0 {
                seq![head]
            } else {
                Seq::empty()
            };
            let after = if high > 0 {
                seq![tail]
            } else {
                Seq::empty()
            };
            let y = joined(collect(before + seq![Expr::Is(x)] + after), axis);
            let at = index[axis as int] - low;
            let n = x.dims[axis as int];
            &&& low > 0 ==> head is Is
            &&& high > 0 ==> tail is Is
            &&& y->Is_0.dims == x.dims.update(axis as int, (n + low + high) as i64)
            &&& copied(y, index) == if at < 0 {
                copied(head, index)
            } else if at < n {
                origin(x, index.update(axis as int, at))
            } else {
                copied(tail, index.update(axis as int, at - n))
            }
        }),
{
    let a = axis as int;
    let before = if low > 0 {
        seq![head]
    } else {
        Seq::empty()
    };
    let after = if high > 0 {
        seq![tail]
    } else {
        Seq::empty()
    };
    let parts = before + seq![Expr::Is(x)] + after;
    crate::autodiff::lemma_collected(parts);
    let args = collect(parts)->Ok_0;
    let place = before.len() as int;
    assert(parts[place] == Expr::Is(x));
    assert(parts[place] == Expr::Is(args[place]));
    if low > 0 {
        assert(parts[0] == head);
        assert(parts[0] == Expr::Is(args[0]));
    }
    if high > 0 {
        assert(parts[place + 1] == tail);
        assert(parts[place + 1] == Expr::Is(args[place + 1]));
    }
    assert forall|j: int| 0 <= j < args.len() implies (#[trigger] args[j]).dims[a] >= 0 by {
        assert(parts[j] == Expr::Is(args[j]));
    }
    assert(args.take(0).len() == 0);
    assert(args.take(args.len() as int) =~= args);
    lemma_total_step(args, axis, 0);
    if args.len() >= 2 {
        lemma_total_step(args, axis, 1);
    }
    if args.len() >= 3 {
        lemma_total_step(args, axis, 2);
    }
    let n = x.dims[a];
    assert(axis_total(args, axis) == n + low + high);
    assert(axis_total(args.take(place), axis) == low);
    lemma_joined_extents(args, axis);
    assert(args[0].dims.update(a, (n + low + high) as i64) =~= x.dims.update(
        a,
        (n + low + high) as i64,
    ));
    let at = index[a] - low;
    if at < 0 {
        joined_values_follow_one_another(args, axis, 0, index);
        assert(index.update(a, 0 + index[a]) =~= index);
    } else if at < n {
        let local = index.update(a, at);
        joined_values_follow_one_another(args, axis, place, local);
        assert(local.update(a, low + at) =~= index);
    } else {
        let local = index.update(a, at - n);
        assert(axis_total(args.take(place + 1), axis) == low + n);
        joined_values_follow_one_another(args, axis, place + 1, local);
        assert(local.update(a, low + n + (at - n)) =~= index);
    }
}

/// One axis extended by its edges, or by mirror images in them.
pub open spec fn extended_axis(x: Value, axis: usize, widths: Widths, reflect: bool) -> Expr {
    if reflect {
        reflect_axis(x, axis, widths)
    } else {
        replicate_axis(x, axis, widths)
    }
}

/// A reflected axis takes each coordinate beside it from the mirror image.
proof fn lemma_mirrored(x: Value, axis: usize, widths: Widths, index: Seq<int>)
    requires
        extended_axis(x, axis, widths, true) is Is,
        axis < x.dims.len() <= usize::MAX,
        widths.0 >= 0,
        widths.1 >= 0,
        widths.0 > 0 || widths.1 > 0,
        x.dims[axis as int] >= 0,
        x.dims[axis as int] + widths.0 + widths.1 <= i64::MAX,
        within(
            x.dims.update(axis as int, (x.dims[axis as int] + widths.0 + widths.1) as i64),
            index,
        ),
    ensures
        extended_axis(x, axis, widths, true)->Is_0.dims == x.dims.update(
            axis as int,
            (x.dims[axis as int] + widths.0 + widths.1) as i64,
        ),
        copied(extended_axis(x, axis, widths, true), index) == origin(
            x,
            index.update(
                axis as int,
                edge_coordinate(
                    index[axis as int] - widths.0,
                    x.dims[axis as int] as int,
                    true,
                ),
            ),
        ),
{
    broadcast use group_extents;

    let (low, high) = widths;
    let a = axis as int;
    let n = x.dims[a];
    let total = x.dims.update(a, (n + low + high) as i64);
    let e = Expr::Is(x);
    let at = index[a] - low;
    assert(0 <= index[a] < total[a]);
    let near = e.narrow(axis, 1, low);
    let far = e.narrow(axis, (n - high - 1) as i64, high);
    let head = near.flip(seq![axis]);
    let tail = far.flip(seq![axis]);
    assert(seq![axis].contains(axis)) by {
        assert(seq![axis][0] == axis);
    }
    lemma_extended_axis(x, axis, low, high, head, tail, index);
    if at < 0 {
        assert(near is Is);
        flips_count_from_the_end(near, seq![axis], index);
        let turned = reversed_index(near->Is_0.dims, seq![axis], index);
        assert(turned =~= index.update(a, low - 1 - index[a]));
        narrowing_shifts_one_axis(e, axis, 1, low, turned);
        assert(turned.update(a, turned[a] + 1) =~= index.update(a, -at));
    } else if at >= n {
        assert(far is Is);
        let local = index.update(a, at - n);
        flips_count_from_the_end(far, seq![axis], local);
        let turned = reversed_index(far->Is_0.dims, seq![axis], local);
        assert(turned =~= index.update(a, high - 1 - (at - n)));
        narrowing_shifts_one_axis(e, axis, (n - high - 1) as i64, high, turned);
        assert(turned.update(a, turned[a] + (n - high - 1)) =~= index.update(
            a,
            2 * (n - 1) - at,
        ));
    }
}

/// A replicated axis takes each coordinate beside it from the edge.
proof fn lemma_replicated(x: Value, axis: usize, widths: Widths, index: Seq<int>)
    requires
        extended_axis(x, axis, widths, false) is Is,
        axis < x.dims.len() <= usize::MAX,
        widths.0 >= 0,
        widths.1 >= 0,
        widths.0 > 0 || widths.1 > 0,
        x.dims[axis as int] + widths.0 + widths.1 <= i64::MAX,
        x.dims[axis as int] > 0,
        within(
            x.dims.update(axis as int, (x.dims[axis as int] + widths.0 + widths.1) as i64),
            index,
        ),
    ensures
        extended_axis(x, axis, widths, false)->Is_0.dims == x.dims.update(
            axis as int,
            (x.dims[axis as int] + widths.0 + widths.1) as i64,
        ),
        copied(extended_axis(x, axis, widths, false), index) == origin(
            x,
            index.update(
                axis as int,
                edge_coordinate(
                    index[axis as int] - widths.0,
                    x.dims[axis as int] as int,
                    false,
                ),
            ),
        ),
{
    broadcast use group_extents;

    let (low, high) = widths;
    let a = axis as int;
    let n = x.dims[a];
    let total = x.dims.update(a, (n + low + high) as i64);
    let e = Expr::Is(x);
    let at = index[a] - low;
    assert(0 <= index[a] < total[a]);
    let first = e.narrow(axis, 0, 1);
    let last = e.narrow(axis, (n - 1) as i64, 1);
    let head = first.broadcast_to(x.dims.update(a, low));
    let tail = last.broadcast_to(x.dims.update(a, high));
    lemma_extended_axis(x, axis, low, high, head, tail, index);
    if at < 0 {
        assert(first is Is);
        lemma_spread(first, x.dims, axis, low, index);
        narrowing_shifts_one_axis(e, axis, 0, 1, index.update(a, 0));
        assert(index.update(a, 0).update(a, 0int + 0int) =~= index.update(a, 0));
    } else if at >= n {
        assert(last is Is);
        let local = index.update(a, at - n);
        lemma_spread(last, x.dims, axis, high, local);
        assert(local.update(a, 0) =~= index.update(a, 0));
        narrowing_shifts_one_axis(e, axis, (n - 1) as i64, 1, index.update(a, 0));
        assert(index.update(a, 0).update(a, 0int + (n - 1)) =~= index.update(a, n - 1));
    }
}

/// An extended axis takes each coordinate beside it from an edge, or from the
/// mirror image in it.
proof fn lemma_edges(x: Value, axis: usize, widths: Widths, reflect: bool, index: Seq<int>)
    requires
        extended_axis(x, axis, widths, reflect) is Is,
        axis < x.dims.len() <= usize::MAX,
        widths.0 >= 0,
        widths.1 >= 0,
        x.dims[axis as int] >= 0,
        x.dims[axis as int] + widths.0 + widths.1 <= i64::MAX,
        !reflect && (widths.0 > 0 || widths.1 > 0) ==> x.dims[axis as int] > 0,
        within(
            x.dims.update(axis as int, (x.dims[axis as int] + widths.0 + widths.1) as i64),
            index,
        ),
    ensures
        extended_axis(x, axis, widths, reflect)->Is_0.dims == x.dims.update(
            axis as int,
            (x.dims[axis as int] + widths.0 + widths.1) as i64,
        ),
        copied(extended_axis(x, axis, widths, reflect), index) == origin(
            x,
            index.update(
                axis as int,
                edge_coordinate(
                    index[axis as int] - widths.0,
                    x.dims[axis as int] as int,
                    reflect,
                ),
            ),
        ),
{
    let a = axis as int;
    if widths.0 == 0 && widths.1 == 0 {
        assert(0 <= index[a] < x.dims.update(a, x.dims[a])[a]);
        assert(x.dims.update(a, x.dims[a]) =~= x.dims);
        assert(index.update(a, index[a]) =~= index);
    } else if reflect {
        lemma_mirrored(x, axis, widths, index);
    } else {
        lemma_replicated(x, axis, widths, index);
    }
}

/// A unit axis spread over an extent repeats its one coordinate.
proof fn lemma_spread(x: Expr, dims: Seq<i64>, axis: usize, length: i64, index: Seq<int>)
    requires
        x.broadcast_to(dims.update(axis as int, length)) is Is,
        axis < dims.len() <= usize::MAX,
        x->Is_0.dims == dims.update(axis as int, 1),
        0 <= index[axis as int] < length,
        index.len() == dims.len(),
        forall|i: int| 0 <= i < dims.len() && i != axis ==> 0 <= #[trigger] index[i] < dims[i],
    ensures
        copied(x.broadcast_to(dims.update(axis as int, length)), index) == copied(
            x,
            index.update(axis as int, 0),
        ),
{
    let a = axis as int;
    let wide = dims.update(a, length);
    let from = dims.update(a, 1);
    assert(within(wide, index));
    broadcasting_repeats(x, wide, index);
    let source = Seq::new(
        from.len(),
        |i: int|
            if from[i] == 1 {
                0
            } else {
                index[i + wide.len() - from.len()]
            },
    );
    assert(source =~= index.update(a, 0));
}

/// The extents after the first `count` axes are padded.
pub open spec fn partly_padded(dims: Seq<i64>, padding: Seq<Widths>, count: nat) -> Seq<i64> {
    Seq::new(
        dims.len(),
        |i: int|
            if i < count {
                (dims[i] + padding[i].0 + padding[i].1) as i64
            } else {
                dims[i]
            },
    )
}

/// The source index of the first `count` axes extended at their edges.
pub open spec fn edge_index(
    dims: Seq<i64>,
    padding: Seq<Widths>,
    count: nat,
    reflect: bool,
    index: Seq<int>,
) -> Seq<int> {
    Seq::new(
        dims.len(),
        |i: int|
            if i < count {
                edge_coordinate(index[i] - padding[i].0, dims[i] as int, reflect)
            } else {
                index[i]
            },
    )
}

/// Whether every padded axis has an edge to copy, and reflections stay within.
pub open spec fn edges_reach(dims: Seq<i64>, padding: Seq<Widths>, reflect: bool) -> bool {
    forall|i: int|
        0 <= i < padding.len() && ((#[trigger] padding[i]).0 > 0 || padding[i].1 > 0) ==> if reflect {
            padding[i].0 < dims[i] && padding[i].1 < dims[i]
        } else {
            dims[i] > 0
        }
}

proof fn lemma_extended(
    x: Value,
    padding: Seq<Widths>,
    count: nat,
    reflect: bool,
    index: Seq<int>,
)
    requires
        extended(x, padding, count, reflect) is Is,
        crate::indexing::pad_error(x.dims, padding, padding.len()) is None,
        count <= padding.len() == x.dims.len() <= usize::MAX,
        volume(x.dims) is Some,
        edges_reach(x.dims, padding, reflect),
        within(partly_padded(x.dims, padding, count), index),
    ensures
        extended(x, padding, count, reflect)->Is_0.dims == partly_padded(x.dims, padding, count),
        copied(extended(x, padding, count, reflect), index) == origin(
            x,
            edge_index(x.dims, padding, count, reflect, index),
        ),
    decreases count,
{
    let dims = x.dims;
    if count == 0 {
        assert(partly_padded(dims, padding, 0) =~= dims);
        assert(edge_index(dims, padding, 0, reflect, index) =~= index);
    } else {
        let axis = (count - 1) as usize;
        let a = count - 1;
        let widths = padding[a];
        let rest = (count - 1) as nat;
        let y = extended(x, padding, rest, reflect)->Is_0;
        crate::shape::lemma_volume_nonnegative(dims);
        lemma_padding(dims, padding, padding.len());
        assert(widths.0 >= 0 && widths.1 >= 0);
        let inner = partly_padded(dims, padding, rest);
        let outer = partly_padded(dims, padding, count);
        assert(0 <= index[a] < outer[a]);
        let moved = index.update(
            a,
            edge_coordinate(index[a] - widths.0, dims[a] as int, reflect),
        );
        assert(extended_axis(y, axis, widths, reflect) == extended(x, padding, count, reflect));
        assert forall|i: int| 0 <= i < inner.len() implies 0 <= #[trigger] moved[i] < inner[i] by {
            if i != a {
                assert(moved[i] == index[i] && inner[i] == outer[i]);
                assert(0 <= index[i] < outer[i]);
            }
        }
        lemma_extended(x, padding, rest, reflect, moved);
        assert(outer =~= y.dims.update(a, (y.dims[a] + widths.0 + widths.1) as i64));
        lemma_edges(y, axis, widths, reflect, index);
        assert(edge_index(dims, padding, rest, reflect, moved) =~= edge_index(
            dims,
            padding,
            count,
            reflect,
            index,
        ));
    }
}

/// Padding by edges takes each coordinate outside from the nearest edge.
pub proof fn replicated_padding_repeats_the_edges(x: Expr, padding: Seq<Widths>, index: Seq<int>)
    requires
        x.pad_replicate(padding) is Is,
        x->Is_0.dims.len() <= usize::MAX,
        volume(x->Is_0.dims) is Some,
        within(padded(x->Is_0.dims, padding), index),
    ensures
        x.pad_replicate(padding)->Is_0.dims == padded(x->Is_0.dims, padding),
        copied(x.pad_replicate(padding), index) == copied(
            x,
            Seq::new(
                index.len(),
                |i: int| clamped(index[i] - padding[i].0, x->Is_0.dims[i] as int),
            ),
        ),
{
    let dims = x->Is_0.dims;
    crate::shape::lemma_volume_nonnegative(dims);
    lemma_padding(dims, padding, padding.len());
    assert(partly_padded(dims, padding, padding.len()) =~= padded(dims, padding));
    assert forall|i: int|
        0 <= i < padding.len() && ((#[trigger] padding[i]).0 > 0 || padding[i].1 > 0) implies dims[i]
        > 0 by {
        assert(dims[i] >= 0);
    }
    lemma_extended(x->Is_0, padding, padding.len(), false, index);
    assert(edge_index(dims, padding, padding.len(), false, index) =~= Seq::new(
        index.len(),
        |i: int| clamped(index[i] - padding[i].0, dims[i] as int),
    ));
}

/// Padding by reflection takes each coordinate outside from its mirror image
/// in the nearest edge, which is not repeated.
pub proof fn reflected_padding_mirrors_in_the_edges(
    x: Expr,
    padding: Seq<Widths>,
    index: Seq<int>,
)
    requires
        x.pad_reflect(padding) is Is,
        x->Is_0.dims.len() <= usize::MAX,
        volume(x->Is_0.dims) is Some,
        within(padded(x->Is_0.dims, padding), index),
    ensures
        x.pad_reflect(padding)->Is_0.dims == padded(x->Is_0.dims, padding),
        copied(x.pad_reflect(padding), index) == copied(
            x,
            Seq::new(
                index.len(),
                |i: int|
                    edge_coordinate(index[i] - padding[i].0, x->Is_0.dims[i] as int, true),
            ),
        ),
{
    let dims = x->Is_0.dims;
    crate::shape::lemma_volume_nonnegative(dims);
    lemma_padding(dims, padding, padding.len());
    assert(partly_padded(dims, padding, padding.len()) =~= padded(dims, padding));
    assert forall|i: int|
        0 <= i < padding.len() && ((#[trigger] padding[i]).0 > 0 || padding[i].1
            > 0) implies padding[i].0 < dims[i] && padding[i].1 < dims[i] by {
        assert(dims[i] >= 0);
        assert(padding[i].0 >= 0 && padding[i].1 >= 0);
    }
    lemma_extended(x->Is_0, padding, padding.len(), true, index);
    assert(edge_index(dims, padding, padding.len(), true, index) =~= Seq::new(
        index.len(),
        |i: int| edge_coordinate(index[i] - padding[i].0, dims[i] as int, true),
    ));
}

/// A nearest-neighbor resize reads output `(n, y, x, c)` from input
/// `(n, y * H / OH, x * W / OW, c)`, rounded down.
pub proof fn nearest_resize_reads_the_floor(x: Expr, size: (i64, i64), index: Seq<int>)
    requires
        x.resize_nearest2d(size) is Is,
        within(x.resize_nearest2d(size)->Is_0.dims, index),
    ensures
        x.resize_nearest2d(size)->Is_0.dims == x->Is_0.dims.update(1, size.0).update(2, size.1),
        copied(x.resize_nearest2d(size), index) == copied(
            x,
            seq![
                index[0],
                nearest_index(x->Is_0.dims[1], size.0, index[1]),
                nearest_index(x->Is_0.dims[2], size.1, index[2]),
                index[3],
            ],
        ),
{
    let v = x->Is_0;
    let (h, w) = (v.dims[1], v.dims[2]);
    let result = x.resize_nearest2d(size);
    let source = seq![
        index[0],
        nearest_index(h, size.0, index[1]),
        nearest_index(w, size.1, index[2]),
        index[3],
    ];
    if size == (h, w) {
        assert(v.dims =~= v.dims.update(1, size.0).update(2, size.1));
        assert(0 <= index[1] < h && 0 <= index[2] < w);
        vstd::arithmetic::div_mod::lemma_div_multiples_vanish(index[1], h as int);
        vstd::arithmetic::div_mod::lemma_div_multiples_vanish(index[2], w as int);
        assert(index[1] * h == h * index[1]) by (nonlinear_arith);
        assert(index[2] * w == w * index[2]) by (nonlinear_arith);
        assert(source =~= index);
    } else {
        crate::resize::nearest_reads_within_the_source(h, size.0);
        crate::resize::nearest_reads_within_the_source(w, size.1);
        let rows = nearest_indices(h, size.0)->Ok_0;
        let columns = nearest_indices(w, size.1)->Ok_0;
        let r = constant_i32(v.graph, seq![size.0], rows);
        let c = constant_i32(v.graph, seq![size.1], columns);
        assert(r is Is && c is Is);
        let tall = x.take(r, 1);
        assert(tall is Is && result == tall.take(c, 2));
        lemma_taken(x, v.graph, size.0, rows, 1);
        lemma_taken(tall, v.graph, size.1, columns, 2);
        assert(v.dims.update(1, size.0)[2] == w);
        let middle = index.update(2, columns[index[2]] as int);
        assert(0 <= index[1] < size.0 && 0 <= index[2] < size.1);
        assert(0 <= columns[index[2]] < w && 0 <= rows[index[1]] < h);
        assert(copied(result, index) == copied(tall, middle)) by {
            reveal(applied);
            reveal(origin);
            reveal(crate::graph::typed);
        }
        let last = middle.update(1, rows[index[1]] as int);
        assert(copied(tall, middle) == copied(x, last)) by {
            reveal(applied);
            reveal(origin);
            reveal(crate::graph::typed);
        }
        assert(last =~= source);
    }
}

/// The extents of a gather by constant indices.
proof fn lemma_taken(x: Expr, graph: u64, length: i64, values: Seq<i32>, axis: usize)
    requires
        constant_i32(graph, seq![length], values) is Is,
        x.take(constant_i32(graph, seq![length], values), axis) is Is,
    ensures
        x is Is,
        axis < x->Is_0.dims.len(),
        x.take(constant_i32(graph, seq![length], values), axis)->Is_0.dims == x->Is_0.dims.update(
            axis as int,
            length,
        ),
{
    reveal(applied);
    reveal(crate::graph::typed);
    let dims = x->Is_0.dims;
    let a = axis as int;
    assert(dims.take(a) + seq![length] + dims.skip(a + 1) =~= dims.update(a, length));
}

/// A strided slice reads from its starts on, by its strides.
pub proof fn slices_read_by_their_strides(
    x: Expr,
    starts: Seq<i64>,
    limits: Seq<i64>,
    strides: Seq<i64>,
    index: Seq<int>,
)
    requires
        x.slice(starts, limits, strides) is Is,
        index.len() == x->Is_0.dims.len(),
    ensures
        x.slice(starts, limits, strides)->Is_0.dims == slice_dims(
            slices_of(starts, limits, strides),
        ),
        x.slice(starts, limits, strides)->Is_0.graph == x->Is_0.graph,
        copied(x.slice(starts, limits, strides), index) == copied(
            x,
            Seq::new(index.len(), |i: int| starts[i] + index[i] * strides[i]),
        ),
{
    reveal(applied);
    reveal(origin);
    assert(sliced_index(slices_of(starts, limits, strides), index) =~= Seq::new(
        index.len(),
        |i: int| starts[i] + index[i] * strides[i],
    ));
}

/// Merging and splitting axes keep the row-major order of the elements.
pub proof fn merging_axes_keeps_the_order(x: Expr, start: usize, end: usize, index: Seq<int>)
    requires
        x.flatten(start, end) is Is,
    ensures
        copied(x.flatten(start, end), index) == copied(
            x,
            unravel(x->Is_0.dims, ravel(x.flatten(start, end)->Is_0.dims, index)),
        ),
{
    broadcast use group_extents;

    let dims = flattened(x->Is_0.dims, start, end)->Ok_0;
    reshape_keeps_the_order(x, dims, index);
}

/// Splitting an axis keeps the row-major order of the elements.
pub proof fn splitting_an_axis_keeps_the_order(
    x: Expr,
    axis: usize,
    sizes: Seq<i64>,
    index: Seq<int>,
)
    requires
        x.unflatten(axis, sizes) is Is,
    ensures
        copied(x.unflatten(axis, sizes), index) == copied(
            x,
            unravel(x->Is_0.dims, ravel(x.unflatten(axis, sizes)->Is_0.dims, index)),
        ),
{
    broadcast use group_extents;

    let dims = unflattened(x->Is_0.dims, axis, sizes)->Ok_0;
    reshape_keeps_the_order(x, dims, index);
}

/// Upsampling reads output `(n, y, x, c)` from input
/// `(n, y / scale, x / scale, c)`.
pub proof fn upsampling_reads_the_quotients(x: Expr, scales: (i64, i64), index: Seq<int>)
    requires
        x.upsample_nearest2d(scales) is Is,
        volume(x->Is_0.dims) is Some,
        within(x.upsample_nearest2d(scales)->Is_0.dims, index),
    ensures
        x.upsample_nearest2d(scales)->Is_0.dims == seq![
            x->Is_0.dims[0],
            (x->Is_0.dims[1] * scales.0) as i64,
            (x->Is_0.dims[2] * scales.1) as i64,
            x->Is_0.dims[3],
        ],
        copied(x.upsample_nearest2d(scales), index) == copied(
            x,
            seq![
                index[0],
                index[1] / scales.0 as int,
                index[2] / scales.1 as int,
                index[3],
            ],
        ),
{
    broadcast use group_extents;

    let v = x->Is_0;
    let (n, h, w, c) = (v.dims[0], v.dims[1], v.dims[2], v.dims[3]);
    crate::shape::lemma_volume_nonnegative(v.dims);
    assert(n >= 0 && h >= 0 && w >= 0 && c >= 0);
    let (s, t) = scales;
    let shape = seq![n, (h * s) as i64, (w * t) as i64, c];
    let small = seq![index[0], index[1] / s as int, index[2] / t as int, index[3]];
    assert(h * s >= 0 && w * t >= 0) by (nonlinear_arith)
        requires
            h >= 0,
            w >= 0,
            s >= 0,
            t >= 0,
    ;
    assert(v.dims =~= seq![n, h, w, c]);
    if scales == (1i64, 1i64) {
        assert(h * 1 == h && w * 1 == w);
        assert(shape =~= v.dims);
        assert(s as int == 1 && t as int == 1);
        assert(small[1] == index[1] / 1 && small[2] == index[2] / 1);
        assert(small =~= index);
    } else {
        let units = seq![n, h, 1, w, 1, c];
        let wide = seq![n, h, s, w, t, c];
        let column = x.reshape(units);
        let spread = column.broadcast_to(wide);
        assert(spread is Is && column is Is);
        assert(0 <= index[0] < shape[0] && 0 <= index[1] < shape[1] && 0 <= index[2] < shape[2] && 0
            <= index[3] < shape[3]);
        let (p, q) = (index[1] / s as int, index[1] % s as int);
        let (y, z) = (index[2] / t as int, index[2] % t as int);
        lemma_quotient(index[1], h as int, s as int);
        lemma_quotient(index[2], w as int, t as int);
        let full = seq![index[0], p, q, y, z, index[3]];
        reshape_keeps_the_order(spread, shape, index);
        let middle = seq![n, h, s, (w * t) as i64, c];
        let halfway = seq![index[0], p, q, index[2], index[3]];
        lemma_ravel_split(shape, index, 1, h, s, p, q);
        assert(shape.update(1, h).insert(2, s) =~= middle);
        assert(index.update(1, p).insert(2, q) =~= halfway);
        lemma_ravel_split(middle, halfway, 3, w, t, y, z);
        assert(middle.update(3, w).insert(4, t) =~= wide);
        assert(halfway.update(3, y).insert(4, z) =~= full);
        assert(within(wide, full));
        lemma_unravel(wide, full);
        broadcasting_repeats(column, wide, full);
        let zeros = seq![index[0], p, 0, y, 0, index[3]];
        let source = Seq::new(
            units.len(),
            |i: int|
                if units[i] == 1 {
                    0
                } else {
                    full[i + wide.len() - units.len()]
                },
        );
        assert(source =~= zeros);
        reshape_keeps_the_order(x, units, zeros);
        lemma_ravel_unit(v.dims, small, 2);
        let once = v.dims.insert(2, 1);
        let single = small.insert(2, 0);
        lemma_ravel_unit(once, single, 4);
        assert(once.insert(4, 1) =~= units);
        assert(single.insert(4, 0) =~= zeros);
        assert(within(v.dims, small));
        lemma_unravel(v.dims, small);
    }
}

/// The quotient and remainder of a coordinate below a product.
proof fn lemma_quotient(at: int, outer: int, inner: int)
    requires
        0 <= at < outer * inner,
        inner > 0,
    ensures
        at == (at / inner) * inner + at % inner,
        0 <= at / inner < outer,
        0 <= at % inner < inner,
{
    lemma_fundamental_div_mod(at, inner);
    let (p, q) = (at / inner, at % inner);
    assert(inner * p == p * inner) by (nonlinear_arith);
    assert(0 <= p < outer) by (nonlinear_arith)
        requires
            at == p * inner + q,
            0 <= q < inner,
            0 <= at < outer * inner,
    ;
}

} // verus!
