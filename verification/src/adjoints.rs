//! What derivative rules do to single elements: cotangents go back to where the
//! elements came from.
use crate::assignments::{addends, kept_index, lemma_increasing_pair, reads_totals, total_element};
use crate::elements::{
    broadcasting_repeats, copied, flips_count_from_the_end, lemma_part_found, lemma_unravel,
    narrowed_index, narrowing_shifts_one_axis, origin, part_at, permuted_index, ravel,
    reshape_keeps_the_order, reversed_index, sliced_index, transposing_permutes_the_index,
    unpadded_index, unravel, within, Element,
};
use crate::extents::product_dims;
use crate::facts::group_extents;
use crate::gradients::{
    broadcast_gradient, concatenate_gradients, consistent, inverse_of, lemma_permutation_onto,
    lemma_transposing, matmul_gradients, one_part, pad_gradients, pad_interior, repeated_axes,
    repeats, rule, spread, transposing,
};
use crate::graph::{applied, Expr, Value};
use crate::matmul::{batch_of, broadcast_shape};
use crate::op::{OpModel, Reduction};
use crate::ops::{broadcasts, increasing};
use crate::products::{
    lemma_pulled_itself, matrix_factors, matrix_products_pair_rows_with_columns, place,
    product_factors, reads_matrix_products,
};
use crate::regions::lemma_inside;
use crate::shape::{collapsed, kept, lemma_volume_nonnegative, volume};
use crate::sound::axis_total;
use crate::words::inside;
use vstd::arithmetic::div_mod::lemma_fundamental_div_mod;
use vstd::prelude::*;

verus! {

/// Whether an operation copies every element of its result, or of the interior
/// of its result, from one operand.
pub open spec fn rearranges(op: OpModel) -> bool {
    match op {
        OpModel::Reshape
        | OpModel::Reverse { .. }
        | OpModel::Transpose { .. }
        | OpModel::Concatenate { .. }
        | OpModel::Pad(..) => true,
        _ => false,
    }
}

/// The operand and the index that such an operation copies an element from.
pub open spec fn source(v: Value, index: Seq<int>) -> (int, Seq<int>) {
    let x = v.args[0];
    match v.op {
        OpModel::Reshape => (0, unravel(x.dims, ravel(v.dims, index))),
        OpModel::Reverse { axes } => (0, reversed_index(x.dims, axes, index)),
        OpModel::Transpose { permutation } => (0, permuted_index(permutation, index)),
        OpModel::Concatenate { axis } => {
            let (k, at) = part_at(v.args, axis, index[axis as int]);
            (k, index.update(axis as int, at))
        },
        OpModel::Pad(padding) => (0, unpadded_index(padding, index)),
        _ => (0, index),
    }
}

/// A position below the element count has an index, which leads back to it.
pub(crate) proof fn lemma_position_index(dims: Seq<i64>, position: int)
    requires
        inside(dims, position),
    ensures
        within(dims, unravel(dims, position)),
        ravel(dims, unravel(dims, position)) == position,
    decreases dims.len(),
{
    if dims.len() > 0 {
        let front = dims.drop_last();
        let number = volume(front)->Some_0 as int;
        let size = dims.last() as int;
        assert(size > 0) by (nonlinear_arith)
            requires
                0 <= position < number * size,
                size >= 0,
        ;
        lemma_fundamental_div_mod(position, size);
        let q = position / size;
        let r = position % size;
        assert(0 <= q < number) by (nonlinear_arith)
            requires
                position == size * q + r,
                0 <= r < size,
                0 <= position < number * size,
        ;
        lemma_position_index(front, q);
        let index = unravel(dims, position);
        assert(index.drop_last() =~= unravel(front, q));
        assert(q * size == size * q) by (nonlinear_arith);
        assert forall|i: int| 0 <= i < dims.len() implies 0 <= #[trigger] index[i] < dims[i] by {
            if i < front.len() {
                assert(0 <= unravel(front, q)[i] < front[i]);
            }
        }
    }
}

/// The gradient of a rearrangement puts each cotangent back where its element
/// came from.
pub proof fn cotangents_return_to_their_source(v: Value, dy: Value, index: Seq<int>)
    requires
        consistent(v),
        rearranges(v.op),
        dy.dims == v.dims,
        within(v.dims, index),
        v.op is Pad ==> within(v.args[0].dims, source(v, index).1),
        0 <= source(v, index).0 < rule(v, dy).len(),
        rule(v, dy)[source(v, index).0].1 is Is,
    ensures
        origin(v, index) == origin(v.args[source(v, index).0], source(v, index).1),
        rule(v, dy)[source(v, index).0].0 == source(v, index).0,
        copied(rule(v, dy)[source(v, index).0].1, source(v, index).1) == origin(dy, index),
{
    let d = Expr::Is(dy);
    let x = v.args[0];
    let (k, s) = source(v, index);
    match v.op {
        OpModel::Reshape => {
            assert(rule(v, dy) == one_part(0, d.reshape(x.dims))) by {
                reveal(rule);
            }
            assert(volume(x.dims) == volume(v.dims)) by {
                reveal(applied);
            }
            lemma_inside(v.dims, index);
            lemma_position_index(x.dims, ravel(v.dims, index));
            reshape_keeps_the_order(d, x.dims, s);
            lemma_unravel(v.dims, index);
            reveal(origin);
        },
        OpModel::Reverse { axes } => {
            assert(rule(v, dy) == one_part(0, d.flip(axes))) by {
                reveal(rule);
            }
            flips_count_from_the_end(d, axes, s);
            assert(reversed_index(v.dims, axes, s) =~= index);
            reveal(origin);
        },
        OpModel::Transpose { permutation } => {
            let inverse = inverse_of(permutation);
            assert(rule(v, dy) == one_part(0, d.transpose(inverse))) by {
                reveal(rule);
            }
            lemma_permutation_onto(permutation);
            transposing_permutes_the_index(d, inverse, index);
            let back = Seq::new(index.len(), |i: int| index[inverse[i] as int]);
            assert forall|i: int| 0 <= i < index.len() implies #[trigger] back[i] == s[i] by {
                assert(permutation.contains(i as usize));
                let t = permutation.index_of(i as usize);
                assert(permutation[t] == i as usize && 0 <= t < permutation.len());
                assert(inverse[i] == t);
            }
            assert(back =~= s);
            reveal(origin);
        },
        OpModel::Concatenate { axis } => {
            let a = axis as int;
            assert(rule(v, dy) == concatenate_gradients(v.args, axis, d)) by {
                reveal(rule);
            }
            assert forall|j: int| 0 <= j < v.args.len() implies (#[trigger] v.args[j]).dims[a]
                >= 0 by {
                lemma_volume_nonnegative(v.args[j].dims);
            }
            assert(0 <= index[a] < v.dims[a]);
            lemma_part_found(v.args, axis, index[a]);
            let start = axis_total(v.args.take(k), axis);
            lemma_volume_nonnegative(v.dims);
            lemma_total_bound(v.args, axis, k);
            narrowing_shifts_one_axis(d, axis, start as i64, v.args[k].dims[a], s);
            assert(s.update(a, s[a] + start) =~= index);
            reveal(origin);
        },
        OpModel::Pad(padding) => {
            let axes = pad_interior(x.dims, padding);
            assert(rule(v, dy) == pad_gradients(v.graph, x.dims, padding, d)) by {
                reveal(rule);
            }
            let part = d.sliced(axes);
            assert(part is Is && part->Is_0.op == OpModel::Slice(axes) && part->Is_0.args
                == seq![dy]) by {
                reveal(applied);
            }
            assert(sliced_index(axes, s) =~= index) by {
                assert forall|i: int| 0 <= i < index.len() implies #[trigger] sliced_index(
                    axes,
                    s,
                )[i] == index[i] by {
                    assert(axes[i].stride == 1 && axes[i].start == padding[i].0);
                    assert(s[i] * 1 == s[i]);
                }
            }
            reveal(origin);
        },
        _ => {},
    }
}

/// The parts before one of several do not exceed them all.
proof fn lemma_total_bound(args: Seq<Value>, axis: usize, k: int)
    requires
        0 <= k < args.len(),
        forall|j: int| 0 <= j < args.len() ==> (#[trigger] args[j]).dims[axis as int] >= 0,
    ensures
        0 <= axis_total(args.take(k), axis) <= axis_total(args, axis),
    decreases args.len(),
{
    let front = args.drop_last();
    assert forall|j: int| 0 <= j < front.len() implies (#[trigger] front[j]).dims[axis as int]
        >= 0 by {
        assert(args[j].dims[axis as int] >= 0);
    }
    assert(args[args.len() - 1].dims[axis as int] >= 0);
    if k < front.len() {
        lemma_total_bound(front, axis, k);
        assert(front.take(k) =~= args.take(k));
    } else {
        assert(args.take(k) =~= front);
        if front.len() > 0 {
            lemma_total_bound(front, axis, 0);
            assert(front.take(0).len() == 0);
        }
    }
}

/// An index of joined extents.
proof fn lemma_matrix_index(batch: Seq<i64>, rows: i64, columns: i64, at: Seq<int>, r: int, c: int)
    requires
        within(batch, at),
        0 <= r < rows,
        0 <= c < columns,
    ensures
        within(batch + seq![rows, columns], at + seq![r, c]),
{
    let dims = batch + seq![rows, columns];
    let index = at + seq![r, c];
    assert forall|i: int| 0 <= i < dims.len() implies 0 <= #[trigger] index[i] < dims[i] by {
        if i < batch.len() {
            assert(0 <= at[i] < batch[i]);
        }
    }
}

/// A matrix with its axes exchanged.
proof fn lemma_exchanged(x: Expr, at: Seq<int>, r: int, c: int)
    requires
        x is Is,
        x->Is_0.dims.len() == at.len() + 2,
        x->Is_0.dims.len() <= usize::MAX,
        x.transpose(transposing(x->Is_0.dims.len())) is Is,
    ensures
        copied(x.transpose(transposing(x->Is_0.dims.len())), at + seq![r, c]) == copied(
            x,
            at + seq![c, r],
        ),
{
    let rank = x->Is_0.dims.len();
    let permutation = transposing(rank);
    let index = at + seq![c, r];
    transposing_permutes_the_index(x, permutation, index);
    let there = Seq::new(index.len(), |i: int| index[permutation[i] as int]);
    assert forall|i: int| 0 <= i < there.len() implies #[trigger] there[i] == (at + seq![r, c])[i] by {
        if i < at.len() {
            assert(permutation[i] == i);
        } else if i == at.len() {
            assert(permutation[i] == i + 1);
        } else {
            assert(permutation[i] == i - 1);
        }
    }
    assert(there =~= at + seq![r, c]);
}

/// A product of matrices of one batch, by its factors.
proof fn lemma_batched<A>(
    read: spec_fn(Element) -> A,
    dot: spec_fn(Seq<(A, A)>) -> A,
    x: Value,
    y: Value,
    batch: Seq<i64>,
    extents: (i64, i64, i64),
    at: Seq<int>,
    r: int,
    c: int,
)
    requires
        reads_matrix_products(read, dot),
        Expr::Is(x).matmul(Expr::Is(y)) is Is,
        batch.len() + 3 < usize::MAX,
        x.dims == batch + seq![extents.0, extents.1],
        y.dims == batch + seq![extents.1, extents.2],
        extents.1 >= 0,
        within(batch, at),
        0 <= r < extents.0,
        0 <= c < extents.2,
    ensures
        read(copied(Expr::Is(x).matmul(Expr::Is(y)), at + seq![r, c])) == dot(
            matrix_factors(
                read,
                Expr::Is(x),
                Expr::Is(y),
                at,
                r,
                c,
                extents.1 as nat,
            ),
        ),
{
    let (rows, size, columns) = extents;
    let index = at + seq![r, c];
    assert(batch_of(x.dims) =~= batch);
    assert(batch_of(y.dims) =~= batch);
    assert(broadcast_shape(batch, batch) =~= batch);
    assert(product_dims(x.dims, y.dims) =~= batch + seq![rows, columns]);
    lemma_matrix_index(batch, rows, columns, at, r, c);
    assert(x.dims.last() == size);
    matrix_products_pair_rows_with_columns(read, dot, x, y, index);
    assert(place(x.dims, y.dims, index) == (at, r, c)) by {
        assert(index.take(batch.len() as int) =~= at);
    }
    let one = product_factors(read, x, y, index);
    let other = matrix_factors(read, Expr::Is(x), Expr::Is(y), at, r, c, size as nat);
    assert forall|j: int| 0 <= j < size implies #[trigger] one[j] == other[j] by {
        lemma_matrix_index(batch, rows, size, at, r, j);
        lemma_matrix_index(batch, size, columns, at, j, c);
        lemma_pulled_itself(x.dims, at + seq![r, j]);
        lemma_pulled_itself(y.dims, at + seq![j, c]);
    }
    assert(one =~= other);
}

/// The gradients of a matrix product: each element of the left one pairs a row
/// of the cotangent with a row of the right operand, and each of the right one
/// a column of the left operand with a column of the cotangent.
pub proof fn product_gradients_pair_with_the_other_operand<A>(
    read: spec_fn(Element) -> A,
    dot: spec_fn(Seq<(A, A)>) -> A,
    v: Value,
    dy: Value,
    batch: Seq<i64>,
    extents: (i64, i64, i64),
    at: Seq<int>,
    r: int,
    l: int,
    c: int,
)
    requires
        reads_matrix_products(read, dot),
        consistent(v),
        v.op is Matmul,
        dy.dims == v.dims,
        dy.graph == v.graph,
        batch.len() + 3 < usize::MAX,
        v.args[0].dims == batch + seq![extents.0, extents.1],
        v.args[1].dims == batch + seq![extents.1, extents.2],
        rule(v, dy)[0].1 is Is,
        rule(v, dy)[1].1 is Is,
        within(batch, at),
        0 <= r < extents.0,
        0 <= l < extents.1,
        0 <= c < extents.2,
    ensures
        rule(v, dy)[0].0 == 0 && rule(v, dy)[1].0 == 1,
        read(copied(rule(v, dy)[0].1, at + seq![r, l])) == dot(
            Seq::new(
                extents.2 as nat,
                |j: int| (read(origin(dy, at + seq![r, j])), read(origin(v.args[1], at + seq![l, j]))),
            ),
        ),
        read(copied(rule(v, dy)[1].1, at + seq![l, c])) == dot(
            Seq::new(
                extents.0 as nat,
                |i: int| (read(origin(v.args[0], at + seq![i, l])), read(origin(dy, at + seq![i, c]))),
            ),
        ),
{
    let (rows, size, columns) = extents;
    let (a, b) = (v.args[0], v.args[1]);
    let d = Expr::Is(dy);
    let rank = batch.len() + 2;
    let permutation = transposing(rank);
    assert(rule(v, dy) == matmul_gradients(a, b, d)) by {
        reveal(rule);
    }
    let bt = Expr::Is(b).transpose(permutation);
    let ta = Expr::Is(a).transpose(permutation);
    assert(bt is Is && ta is Is) by {
        reveal(Expr::matmul);
    }
    lemma_transposing(Expr::Is(b), rank);
    lemma_transposing(Expr::Is(a), rank);
    assert(v.dims =~= batch + seq![rows, columns]) by {
        assert(a.dims.take(rank - 2) =~= batch);
        assert(v.dims.take(rank - 2) =~= batch);
        assert(v.dims =~= v.dims.take(rank - 2) + seq![v.dims[rank - 2], v.dims[rank - 1]]);
    }
    assert(bt->Is_0.dims =~= batch + seq![columns, size]);
    assert(ta->Is_0.dims =~= batch + seq![size, rows]);
    lemma_volume_nonnegative(v.dims);
    lemma_volume_nonnegative(a.dims);
    lemma_batched(read, dot, dy, bt->Is_0, batch, (rows, columns, size), at, r, l);
    let one = matrix_factors(read, d, bt, at, r, l, columns as nat);
    let other = Seq::new(
        columns as nat,
        |j: int| (read(origin(dy, at + seq![r, j])), read(origin(b, at + seq![l, j]))),
    );
    assert forall|j: int| 0 <= j < columns implies #[trigger] one[j] == other[j] by {
        lemma_exchanged(Expr::Is(b), at, j, l);
    }
    assert(one =~= other);
    lemma_batched(read, dot, ta->Is_0, dy, batch, (size, rows, columns), at, l, c);
    let first = matrix_factors(read, ta, d, at, l, c, rows as nat);
    let second = Seq::new(
        rows as nat,
        |i: int| (read(origin(a, at + seq![i, l])), read(origin(dy, at + seq![i, c]))),
    );
    assert forall|i: int| 0 <= i < rows implies #[trigger] first[i] == second[i] by {
        lemma_exchanged(Expr::Is(a), at, l, i);
    }
    assert(first =~= second);
}

/// The index with the listed coordinates at zero.
pub open spec fn zeroed(index: Seq<int>, axes: Seq<usize>) -> Seq<int> {
    Seq::new(
        index.len(),
        |i: int|
            if axes.contains(i as usize) {
                0
            } else {
                index[i]
            },
    )
}

/// Unit axes in place of reduced ones do not change the position.
pub(crate) proof fn lemma_collapsed_position(dims: Seq<i64>, axes: Seq<usize>, index: Seq<int>)
    requires
        index.len() == dims.len(),
        dims.len() <= usize::MAX,
    ensures
        ravel(collapsed(dims, axes), zeroed(index, axes)) == ravel(
            kept(dims, axes),
            kept_index(index, axes),
        ),
        kept_index(index, axes).len() == kept(dims, axes).len(),
        within(dims, index) ==> within(kept(dims, axes), kept_index(index, axes)),
    decreases dims.len(),
{
    if dims.len() > 0 {
        let front = dims.drop_last();
        let before = index.drop_last();
        lemma_collapsed_position(front, axes, before);
        assert(collapsed(dims, axes).drop_last() =~= collapsed(front, axes));
        assert(zeroed(index, axes).drop_last() =~= zeroed(before, axes));
        let rest = kept(front, axes);
        let rest_at = kept_index(before, axes);
        if within(dims, index) {
            assert forall|i: int| 0 <= i < front.len() implies 0 <= #[trigger] before[i]
                < front[i] by {
                assert(0 <= index[i] < dims[i]);
            }
            assert(within(rest, rest_at));
            assert(0 <= index[dims.len() - 1] < dims[dims.len() - 1]);
            let (all, all_at) = (kept(dims, axes), kept_index(index, axes));
            assert forall|i: int| 0 <= i < all.len() implies 0 <= #[trigger] all_at[i] < all[i] by {
                if i < rest.len() {
                    assert(0 <= rest_at[i] < rest[i]);
                }
            }
        }
        if !axes.contains((dims.len() - 1) as usize) {
            assert(kept(dims, axes).drop_last() =~= rest);
            assert(kept_index(index, axes).drop_last() =~= rest_at);
        }
    }
}

/// The gradient of a sum over axes repeats the cotangent along them.
pub proof fn sum_gradients_repeat_the_cotangent(
    v: Value,
    dy: Value,
    axes: Seq<usize>,
    index: Seq<int>,
)
    requires
        consistent(v),
        v.op == (OpModel::Reduce { kind: Reduction::Sum, axes }),
        dy.dims == v.dims,
        rule(v, dy)[0].1 is Is,
        within(v.args[0].dims, index),
    ensures
        rule(v, dy)[0].0 == 0,
        copied(rule(v, dy)[0].1, index) == origin(dy, kept_index(index, axes)),
{
    broadcast use group_extents;

    let d = Expr::Is(dy);
    let dims = v.args[0].dims;
    let part = spread(d, dims, axes);
    assert(rule(v, dy) == one_part(0, part)) by {
        reveal(rule);
    }
    reveal(spread);
    let flat = collapsed(dims, axes);
    let y = d.reshape(flat);
    assert(y is Is);
    broadcasting_repeats(y, dims, index);
    let there = zeroed(index, axes);
    let from = Seq::new(
        flat.len(),
        |i: int|
            if flat[i] == 1 {
                0
            } else {
                index[i + dims.len() - flat.len()]
            },
    );
    assert forall|i: int| 0 <= i < flat.len() implies #[trigger] from[i] == there[i] by {
        assert(0 <= index[i] < dims[i]);
    }
    assert(from =~= there);
    reshape_keeps_the_order(d, flat, there);
    lemma_collapsed_position(dims, axes, index);
    lemma_unravel(dy.dims, kept_index(index, axes));
}

/// The axes along which a broadcast repeats.
proof fn lemma_repeated_axes(axes: Seq<usize>, from: Seq<i64>, to: Seq<i64>, count: nat)
    requires
        count <= to.len() <= usize::MAX,
    ensures
        increasing(repeated_axes(axes, from, to, count)),
        forall|k: int|
            0 <= k < repeated_axes(axes, from, to, count).len() ==> #[trigger] repeated_axes(
                axes,
                from,
                to,
                count,
            )[k] < count,
        forall|p: int|
            0 <= p < count ==> (#[trigger] repeated_axes(axes, from, to, count).contains(p as usize)
                <==> repeats(axes, from, to, p)),
    decreases count,
{
    if count > 0 {
        let rest = repeated_axes(axes, from, to, (count - 1) as nat);
        let all = repeated_axes(axes, from, to, count);
        lemma_repeated_axes(axes, from, to, (count - 1) as nat);
        assert forall|k: int| 0 <= k < all.len() implies #[trigger] all[k] < count by {
            if k < rest.len() {
                assert(rest[k] < count - 1);
            }
        }
        assert forall|i: int| 0 <= i < all.len() - 1 implies #[trigger] all[i] < all[i + 1] by {
            assert(rest[i] < count - 1);
            if i + 1 < rest.len() {
                assert(rest[i] < rest[i + 1]);
            }
        }
        assert forall|p: int| 0 <= p < count implies (#[trigger] all.contains(p as usize)
            <==> repeats(axes, from, to, p)) by {
            if p < count - 1 {
                assert(rest.contains(p as usize) <==> repeats(axes, from, to, p));
                if rest.contains(p as usize) {
                    let k = choose|k: int| 0 <= k < rest.len() && rest[k] == p as usize;
                    assert(all[k] == p as usize);
                }
                if all.contains(p as usize) {
                    let k = choose|k: int| 0 <= k < all.len() && all[k] == p as usize;
                    assert(k < rest.len());
                    assert(rest[k] == p as usize);
                }
            } else {
                if repeats(axes, from, to, p) {
                    assert(all[rest.len() as int] == p as usize);
                } else if all.contains(p as usize) {
                    let k = choose|k: int| 0 <= k < rest.len() && rest[k] == p as usize;
                    assert(rest[k] < count - 1);
                }
            }
        }
    }
}

/// The operand's position of an element that a broadcast repeats is that of its
/// coordinates at the axes that do not repeat.
proof fn lemma_repeated_position(
    axes: Seq<usize>,
    from: Seq<i64>,
    to: Seq<i64>,
    index: Seq<int>,
    m: nat,
    count: nat,
)
    requires
        axes.len() == from.len(),
        to.len() <= usize::MAX,
        within(to, index),
        broadcasts(from, to, axes),
        m <= axes.len(),
        count <= to.len(),
        axes.no_duplicates(),
        forall|i: int| 0 <= i < m ==> #[trigger] axes[i] < count,
        forall|i: int| m <= i < axes.len() ==> #[trigger] axes[i] >= count,
        forall|i: int, j: int| 0 <= i < j < axes.len() ==> axes[i] < axes[j],
    ensures
        ({
            let rep = repeated_axes(axes, from, to, to.len());
            ravel(from.take(m as int), narrowed_index(from, axes, index).take(m as int)) == ravel(
                kept(to.take(count as int), rep),
                kept_index(index.take(count as int), rep),
            )
        }),
    decreases count,
{
    let rep = repeated_axes(axes, from, to, to.len());
    let s = narrowed_index(from, axes, index);
    lemma_repeated_axes(axes, from, to, to.len());
    if count == 0 {
        assert(m == 0) by {
            if m > 0 {
                assert(axes[0] < count);
            }
        }
        assert(from.take(0).len() == 0);
        assert(to.take(0).len() == 0);
        assert(index.take(0).len() == 0);
    } else {
        let p = count - 1;
        let (part, at) = (to.take(count as int), index.take(count as int));
        assert(part.drop_last() =~= to.take(p));
        assert(at.drop_last() =~= index.take(p));
        assert(part.last() == to[p] && at.last() == index[p]);
        assert(0 <= index[p] < to[p]);
        axes.index_of_first_ensures(p as usize);
        if m > 0 && axes[m - 1] == p {
            let f = from[m - 1];
            assert(axes.contains(p as usize));
            let place = axes.index_of_first(p as usize)->Some_0;
            assert(axes[place] == axes[m - 1]);
            assert(place == m - 1);
            assert forall|i: int| 0 <= i < m - 1 implies #[trigger] axes[i] < p by {
                assert(axes[i] < axes[m - 1]);
            }
            lemma_repeated_position(axes, from, to, index, (m - 1) as nat, p as nat);
            assert(from.take(m as int).drop_last() =~= from.take(m - 1));
            assert(s.take(m as int).drop_last() =~= s.take(m - 1));
            assert(from[m - 1] == 1 || from[m - 1] == to[axes[m - 1] as int]);
            assert(rep.contains(p as usize) <==> repeats(axes, from, to, p));
            let q = ravel(from.take(m - 1), s.take(m - 1));
            assert(q * 1 == q);
            let (k, k_at) = (kept(part, rep), kept_index(at, rep));
            if !rep.contains(p as usize) {
                assert(k.drop_last() =~= kept(to.take(p), rep));
                assert(k_at.drop_last() =~= kept_index(index.take(p), rep));
            }
        } else {
            assert(!axes.contains(p as usize)) by {
                if axes.contains(p as usize) {
                    let k = choose|k: int| 0 <= k < axes.len() && axes[k] == p as usize;
                    if k < m - 1 {
                        assert(axes[k] < axes[m - 1]);
                        assert(axes[m - 1] < count);
                    }
                }
            }
            assert forall|i: int| 0 <= i < m implies #[trigger] axes[i] < p by {
                assert(axes[i] < count);
                assert(axes.contains(axes[i]));
            }
            lemma_repeated_position(axes, from, to, index, m, p as nat);
            assert(rep.contains(p as usize) <==> repeats(axes, from, to, p));
        }
    }
}

/// Without listed axes every coordinate stays.
proof fn lemma_all_kept(dims: Seq<i64>, axes: Seq<usize>, index: Seq<int>)
    requires
        axes.len() == 0,
        index.len() == dims.len(),
    ensures
        kept(dims, axes) == dims,
        kept_index(index, axes) == index,
    decreases dims.len(),
{
    if dims.len() == 0 {
        assert(kept(dims, axes) =~= dims);
        assert(kept_index(index, axes) =~= index);
    } else {
        lemma_all_kept(dims.drop_last(), axes, index.drop_last());
        assert(kept(dims, axes) =~= dims);
        assert(kept_index(index, axes) =~= index);
    }
}

/// The gradient of a broadcast adds up, for each element of the operand, the
/// cotangents of all the elements that repeat it.
pub proof fn broadcast_gradients_add_up_the_repetitions<A>(
    read: spec_fn(Element) -> A,
    total: spec_fn(Seq<A>) -> A,
    v: Value,
    dy: Value,
    axes: Seq<usize>,
    index: Seq<int>,
)
    requires
        reads_totals(read, total),
        consistent(v),
        v.op == (OpModel::Broadcast { axes }),
        increasing(axes),
        broadcasts(v.args[0].dims, v.dims, axes),
        dy.dims == v.dims,
        rule(v, dy)[0].1 is Is,
        within(v.dims, index),
    ensures
        ({
            let from = v.args[0].dims;
            let there = narrowed_index(from, axes, index);
            let repeated = repeated_axes(axes, from, v.dims, v.dims.len());
            &&& rule(v, dy)[0].0 == 0
            &&& origin(v, index) == origin(v.args[0], there)
            &&& read(copied(rule(v, dy)[0].1, there)) == if repeated.len() == 0 {
                read(origin(dy, index))
            } else {
                total(addends(read, Expr::Is(dy), repeated, index))
            }
        }),
{
    broadcast use group_extents;

    let d = Expr::Is(dy);
    let (from, to) = (v.args[0].dims, v.dims);
    let there = narrowed_index(from, axes, index);
    let rep = repeated_axes(axes, from, to, to.len());
    let part = broadcast_gradient(axes, from, to, d);
    assert(rule(v, dy) == one_part(0, part)) by {
        reveal(rule);
    }
    assert(origin(v, index) == origin(v.args[0], there)) by {
        reveal(origin);
    }
    let summed = d.sum(rep, true);
    assert(summed is Is);
    reshape_keeps_the_order(summed, from, there);
    lemma_repeated_axes(axes, from, to, to.len());
    assert forall|i: int, j: int| 0 <= i < j < axes.len() implies axes[i] < axes[j] by {
        lemma_increasing_pair(axes, i, j);
    }
    lemma_repeated_position(axes, from, to, index, axes.len(), to.len());
    assert(from.take(axes.len() as int) =~= from);
    assert(there.take(axes.len() as int) =~= there);
    assert(to.take(to.len() as int) =~= to);
    assert(index.take(to.len() as int) =~= index);
    if rep.len() == 0 {
        lemma_all_kept(to, rep, index);
        assert(summed == d) by {
            reveal(Expr::reduce);
        }
        lemma_unravel(to, index);
    } else {
        let flat = collapsed(to, rep);
        let plain = d.sum(rep, false);
        let zero = zeroed(index, rep);
        assert(summed == plain.reshape(flat) && plain is Is) by {
            reveal(Expr::reduce);
        }
        assert(plain->Is_0.dims == kept(to, rep)) by {
            reveal(Expr::reduce);
            reveal(applied);
        }
        lemma_collapsed_position(to, rep, index);
        assert(within(flat, zero)) by {
            assert forall|i: int| 0 <= i < flat.len() implies 0 <= #[trigger] zero[i] < flat[i] by {
                assert(0 <= index[i] < to[i]);
            }
        }
        lemma_unravel(flat, zero);
        reshape_keeps_the_order(plain, flat, zero);
        lemma_unravel(kept(to, rep), kept_index(index, rep));
        assert(total_element(read, total, d, rep, index));
    }
}

} // verus!



