//! What averages over windows and bilinear samples are, as numbers.
use crate::dtype::is_floating;
use crate::elements::{
    clamped, lemma_ravel_unit, lemma_unravel, origin, ravel, reshape_keeps_the_order, within,
};
use crate::facts::group_extents;
use crate::graph::{applied, constant, constant_i32, scalar, typed, Expr, Value};
use crate::numbers::{
    group_numbers, group_operands, indicator, scalar_number, spread_number, total, window_index,
    Numbers,
};
use crate::op::{OpModel, Pool2dOptions, Scalar, F32_ONE};
use crate::pooling::pool_shape;
use crate::products::pulled;
use crate::resize::bits_of;
use vstd::prelude::*;

verus! {

/// The number of elements of a window that lie within the source.
pub open spec fn covered_count(dims: Seq<i64>, options: Pool2dOptions, index: Seq<int>) -> real {
    total(
        Seq::new(
            (options.window.0 * options.window.1) as nat,
            |k: int| indicator(within(dims, window_index(options, index, k))),
        ),
    )
}

/// A sum over windows adds up what each covers.
pub proof fn window_sums_add_what_they_cover(
    n: Numbers,
    x: Value,
    options: Pool2dOptions,
    index: Seq<int>,
)
    requires
        n.computes(),
        Expr::Is(x).sum_pool2d(options) is Is,
        within(Expr::Is(x).sum_pool2d(options)->Is_0.dims, index),
    ensures
        n.at(Expr::Is(x).sum_pool2d(options), index) == n.window_sum(x, options, index),
{
    reveal(applied);
    reveal(Numbers::obeys);
    let z = Expr::Is(x).sum_pool2d(options)->Is_0;
    assert(z.op == OpModel::SumPool2d(options) && z.args == seq![x]);
    assert(n.obeys(z, index));
}

proof fn lemma_area(s: real, a: real, b: real)
    by (nonlinear_arith)
    requires
        a > 0 as real,
        b > 0 as real,
    ensures
        s * (1 as real / (a * b)) * (a * b) == s,
{
    let p = a * b;
    assert(p > 0 as real);
    assert((1 as real / p) * p == 1 as real);
    assert(s * (1 as real / p) * p == s * ((1 as real / p) * p));
}

proof fn lemma_ratio(s: real, c: real)
    by (nonlinear_arith)
    requires
        c != 0 as real,
    ensures
        (s / c) * c == s,
{
}

/// An average over windows, times the area of the window or the number of
/// elements that it covers, is their sum.
#[verifier::rlimit(40)]
pub proof fn window_averages_times_their_count_are_sums(
    n: Numbers,
    x: Value,
    options: Pool2dOptions,
    count_include_pad: bool,
    index: Seq<int>,
)
    requires
        n.lawful(),
        Expr::Is(x).avg_pool2d(options, count_include_pad) is Is,
        within(Expr::Is(x).avg_pool2d(options, count_include_pad)->Is_0.dims, index),
        !count_include_pad ==> covered_count(x.dims, options, index) != 0 as real,
    ensures
        n.at(Expr::Is(x).avg_pool2d(options, count_include_pad), index) * if count_include_pad {
            options.window.0 as real * options.window.1 as real
        } else {
            covered_count(x.dims, options, index)
        } == n.window_sum(x, options, index),
{
    broadcast use {group_extents, group_operands, group_numbers};

    let e = Expr::Is(x);
    let dims = pool_shape(x.dims, options)->Ok_0;
    let sum = e.sum_pool2d(options);
    assert(sum is Is && pool_shape(x.dims, options) is Ok);
    assert(sum->Is_0.dims == dims && is_floating(sum->Is_0.dtype)) by {
        reveal(applied);
    }
    assert(options.window.0 > 0 && options.window.1 > 0);
    if count_include_pad {
        let part = Scalar::ReciprocalProduct { a: options.window.0, b: options.window.1 };
        assert(e.avg_pool2d(options, true) == sum.mul_scalar(part));
        window_sums_add_what_they_cover(n, x, options, index);
        lemma_area(
            n.at(sum, index),
            options.window.0 as real,
            options.window.1 as real,
        );
        assert(n.at(sum.mul_scalar(part), index) == n.at(sum, index) * n.constant(part));
    } else {
        let one = scalar(x.graph, Scalar::Bits(F32_ONE));
        let small = seq![1i64, x.dims[1], x.dims[2], 1i64];
        let ones = one.broadcast_to(small);
        let counts = ones.sum_pool2d(options);
        let wide = counts.broadcast_to(dims);
        assert(e.avg_pool2d(options, false) == sum.div(wide));
        assert(wide is Is && counts is Is && ones is Is);
        window_sums_add_what_they_cover(n, x, options, index);
        spread_number(n, counts, dims, index);
        let low = counts->Is_0.dims;
        assert(ones->Is_0.dims == small);
        assert(low =~= seq![1i64, dims[1], dims[2], 1i64]) by {
            reveal(applied);
        }
        assert(0 <= index[0] < dims[0] && 0 <= index[1] < dims[1] && 0 <= index[2] < dims[2] && 0
            <= index[3] < dims[3]);
        let at = seq![0int, index[1], index[2], 0int];
        assert(pulled(low, index) =~= at);
        assert(within(low, at));
        window_sums_add_what_they_cover(n, ones->Is_0, options, at);
        let mine = Seq::new(
            (options.window.0 * options.window.1) as nat,
            |k: int|
                if within(small, window_index(options, at, k)) {
                    n.of(ones->Is_0, window_index(options, at, k))
                } else {
                    0 as real
                },
        );
        let theirs = Seq::new(
            (options.window.0 * options.window.1) as nat,
            |k: int| indicator(within(x.dims, window_index(options, index, k))),
        );
        assert forall|k: int| 0 <= k < mine.len() implies #[trigger] mine[k] == theirs[k] by {
            let (p, q) = (window_index(options, at, k), window_index(options, index, k));
            assert(p[1] == q[1] && p[2] == q[2] && p[0] == 0 && p[3] == 0 && q[0] == index[0] && q[3]
                == index[3]);
            assert(within(small, p) == within(x.dims, q)) by {
                if within(small, p) {
                    assert(0 <= p[1] < small[1] && 0 <= p[2] < small[2]);
                }
                if within(x.dims, q) {
                    assert(0 <= q[1] < x.dims[1] && 0 <= q[2] < x.dims[2]);
                }
            }
            if within(small, p) {
                spread_number(n, one, small, p);
                scalar_number(n, x.graph, Scalar::Bits(F32_ONE));
                assert(one->Is_0.dims.len() == 0) by {
                    reveal(applied);
                }
                assert(pulled(one->Is_0.dims, p) =~= Seq::empty());
            }
        }
        assert(mine =~= theirs);
        lemma_ratio(n.at(sum, index), covered_count(x.dims, options, index));
        assert(n.at(wide, index) == covered_count(x.dims, options, index));
        assert(n.at(sum.div(wide), index) == n.at(sum, index) / n.at(wide, index));
    }
}

/// A list of source coordinates takes them along its axis.
proof fn lemma_taken(
    n: Numbers,
    x: Expr,
    values: Seq<i32>,
    size: i64,
    axis: usize,
    index: Seq<int>,
)
    requires
        x is Is,
        x.take(constant_i32(x->Is_0.graph, seq![size], values), axis) is Is,
        axis < index.len() == x->Is_0.dims.len(),
        0 <= values[index[axis as int]] < x->Is_0.dims[axis as int],
    ensures
        n.at(x.take(constant_i32(x->Is_0.graph, seq![size], values), axis), index) == n.at(
            x,
            index.update(axis as int, values[index[axis as int]] as int),
        ),
{
    let list = constant_i32(x->Is_0.graph, seq![size], values);
    assert(list is Is && list->Is_0.op == OpModel::ConstantI32(values) && list->Is_0.dims
        == seq![size]) by {
        reveal(typed);
        reveal(applied);
    }
    let z = x.take(list, axis)->Is_0;
    assert(z.op == (OpModel::Take { axis }) && z.args == seq![x->Is_0, list->Is_0]) by {
        reveal(applied);
    }
    reveal(origin);
    let at = values[index[axis as int]] as int;
    assert(clamped(at, x->Is_0.dims[axis as int] as int) == at);
}

/// One of two numbers moved towards the other by a weight.
pub open spec fn between(a: real, b: real, weight: real) -> real {
    a + (b - a) * weight
}

/// A row of weights along one axis of images.
#[verifier::rlimit(40)]
proof fn lemma_weight(
    n: Numbers,
    graph: u64,
    values: Seq<u32>,
    size: i64,
    unit: Seq<i64>,
    dims: Seq<i64>,
    axis: int,
    index: Seq<int>,
)
    requires
        n.computes(),
        axis == 1 || axis == 2,
        unit == seq![1i64, 1, 1, 1].update(axis, size),
        dims.len() == 4,
        dims[axis] == size,
        within(dims, index),
        constant(graph, seq![size], bits_of(values)) is Is,
        constant(graph, seq![size], bits_of(values)).reshape(unit) is Is,
        constant(graph, seq![size], bits_of(values)).reshape(unit).broadcast_to(dims) is Is,
    ensures
        n.at(
            constant(graph, seq![size], bits_of(values)).reshape(unit).broadcast_to(dims),
            index,
        ) == (n.literal)(values[index[axis]]),
{
    broadcast use group_extents;

    let table = constant(graph, seq![size], bits_of(values));
    let shaped = table.reshape(unit);
    spread_number(n, shaped, dims, index);
    assert(0 <= index[axis] < dims[axis]);
    let there = seq![0int, 0, 0, 0].update(axis, index[axis]);
    assert(shaped->Is_0.dims == unit);
    assert(pulled(unit, index) =~= there) by {
        assert forall|i: int| 0 <= i < 4 implies #[trigger] pulled(unit, index)[i] == there[i] by {
            assert(0 <= index[i] < dims[i]);
        }
    }
    let k = index[axis];
    reshape_keeps_the_order(table, unit, there);
    assert(ravel(unit, there) == k) by {
        lemma_unit_position(size, k, axis);
    }
    let spot = seq![k];
    assert(table->Is_0.dims == seq![size] && table->Is_0.args.len() == 0 && table->Is_0.op
        == OpModel::ConstantF32(bits_of(values))) by {
        reveal(applied);
    }
    assert(within(seq![size], spot));
    lemma_one_volume(size);
    assert(bits_of(values)[k] == Scalar::Bits(values[k]));
    assert(ravel(seq![size], spot) == k) by {
        lemma_one_position(size, k);
    }
    lemma_unravel(seq![size], spot);
    reveal(Numbers::obeys);
    assert(n.obeys(table->Is_0, spot));
}

proof fn lemma_one_position(size: i64, k: int)
    ensures
        ravel(seq![size], seq![k]) == k,
{
    assert(seq![size].drop_last() =~= Seq::<i64>::empty());
    assert(ravel(Seq::<i64>::empty(), seq![k].drop_last()) == 0);
    assert(0 * size == 0) by (nonlinear_arith);
}

/// Unit axes around one leave its position.
proof fn lemma_unit_position(size: i64, k: int, axis: int)
    requires
        axis == 1 || axis == 2,
    ensures
        ravel(
            seq![1i64, 1, 1, 1].update(axis, size),
            seq![0int, 0, 0, 0].update(axis, k),
        ) == k,
{
    lemma_one_position(size, k);
    let (one, at) = (seq![size], seq![k]);
    lemma_ravel_unit(one, at, 1);
    assert(one.insert(1, 1) =~= seq![size, 1]);
    assert(at.insert(1, 0) =~= seq![k, 0]);
    if axis == 2 {
        lemma_ravel_unit(seq![size, 1], seq![k, 0], 0);
        assert(seq![size, 1i64].insert(0, 1) =~= seq![1, size, 1]);
        assert(seq![k, 0int].insert(0, 0) =~= seq![0, k, 0]);
        lemma_ravel_unit(seq![1, size, 1], seq![0, k, 0], 0);
        assert(seq![1i64, size, 1].insert(0, 1) =~= seq![1i64, 1, 1, 1].update(2, size));
        assert(seq![0int, k, 0].insert(0, 0) =~= seq![0int, 0, 0, 0].update(2, k));
    } else {
        lemma_ravel_unit(seq![size, 1], seq![k, 0], 2);
        assert(seq![size, 1i64].insert(2, 1) =~= seq![size, 1, 1]);
        assert(seq![k, 0int].insert(2, 0) =~= seq![k, 0, 0]);
        lemma_ravel_unit(seq![size, 1, 1], seq![k, 0, 0], 0);
        assert(seq![size, 1i64, 1].insert(0, 1) =~= seq![1i64, 1, 1, 1].update(1, size));
        assert(seq![k, 0int, 0].insert(0, 0) =~= seq![0int, 0, 0, 0].update(1, k));
    }
}

/// Whether sample positions lie within the source.
pub open spec fn samples_fit(samples: (Seq<i32>, Seq<i32>, Seq<u32>), size: i64) -> bool {
    &&& forall|k: int| 0 <= k < samples.0.len() ==> 0 <= #[trigger] samples.0[k] < size
    &&& forall|k: int| 0 <= k < samples.1.len() ==> 0 <= #[trigger] samples.1[k] < size
}

/// A bilinear sample lies between the samples of two columns by the weight of
/// its column, each of which lies between two rows by the weight of its row.
#[verifier::rlimit(60)]
pub proof fn bilinear_samples_lie_between_their_neighbours(
    n: Numbers,
    x: Value,
    size: (i64, i64),
    rows: (Seq<i32>, Seq<i32>, Seq<u32>),
    columns: (Seq<i32>, Seq<i32>, Seq<u32>),
    index: Seq<int>,
)
    requires
        n.lawful(),
        Expr::Is(x).resize_bilinear2d(size, rows, columns) is Is,
        size != (x.dims[1], x.dims[2]),
        within(seq![x.dims[0], size.0, size.1, x.dims[3]], index),
        samples_fit(rows, x.dims[1]),
        samples_fit(columns, x.dims[2]),
    ensures
        ({
            let (r, c) = (index[1], index[2]);
            let at = |row: i32, column: i32|
                n.of(x, seq![index[0], row as int, column as int, index[3]]);
            let vertical = |column: i32|
                between(
                    at(rows.0[r], column),
                    at(rows.1[r], column),
                    (n.literal)(rows.2[r]),
                );
            n.at(Expr::Is(x).resize_bilinear2d(size, rows, columns), index) == between(
                vertical(columns.0[c]),
                vertical(columns.1[c]),
                (n.literal)(columns.2[c]),
            )
        }),
{
    broadcast use {group_extents, group_operands, group_numbers};

    let e = Expr::Is(x);
    let (upper_rows, lower_rows) = (
        constant_i32(x.graph, seq![size.0], rows.0),
        constant_i32(x.graph, seq![size.0], rows.1),
    );
    let tall = seq![x.dims[0], size.0, x.dims[2], x.dims[3]];
    let full = seq![x.dims[0], size.0, size.1, x.dims[3]];
    let row_unit = seq![1i64, size.0, 1, 1];
    let column_unit = seq![1i64, 1, size.1, 1];
    let row_table = constant(x.graph, seq![size.0], bits_of(rows.2));
    let row_weight = row_table.reshape(row_unit).broadcast_to(tall);
    let first = e.take(upper_rows, 1);
    let second = e.take(lower_rows, 1);
    let vertical = first.add(second.sub(first).mul(row_weight));
    let column_table = constant(x.graph, seq![size.1], bits_of(columns.2));
    let column_weight = column_table.reshape(column_unit).broadcast_to(full);
    let (left_columns, right_columns) = (
        constant_i32(x.graph, seq![size.1], columns.0),
        constant_i32(x.graph, seq![size.1], columns.1),
    );
    let left = vertical.take(left_columns, 2);
    let right = vertical.take(right_columns, 2);
    let z = left.add(right.sub(left).mul(column_weight));
    reveal(Expr::interpolated);
    reveal(Expr::blended);
    assert(e.resize_bilinear2d(size, rows, columns) == z);
    assert(left is Is && right is Is && column_weight is Is);
    assert(vertical is Is) by {
        reveal(applied);
    }
    assert(first is Is && second is Is && row_weight is Is);
    assert(row_table is Is && column_table is Is && row_table.reshape(row_unit) is Is
        && column_table.reshape(column_unit) is Is);
    assert(upper_rows is Is && lower_rows is Is && left_columns is Is && right_columns is Is);
    let (r, c) = (index[1], index[2]);
    assert(0 <= index[0] < x.dims[0] && 0 <= r < size.0 && 0 <= c < size.1 && 0 <= index[3]
        < x.dims[3]);
    assert(rows.0.len() == size.0 && rows.1.len() == size.0 && columns.0.len() == size.1
        && columns.1.len() == size.1) by {
        lemma_one_volume(size.0);
        lemma_one_volume(size.1);
    }
    assert(vertical->Is_0.dims =~= tall && vertical->Is_0.graph == x.graph) by {
        reveal(applied);
    }
    assert(x.dtype == crate::dtype::DType::F32);
    assert(first->Is_0.dtype == x.dtype && left->Is_0.dtype == vertical->Is_0.dtype) by {
        reveal(applied);
    }
    let literal_row = (n.literal)(rows.2[r]);
    assert forall|k: int| 0 <= k < x.dims[2] implies #[trigger] n.at(
        vertical,
        index.update(2, k),
    ) == between(
        n.of(x, seq![index[0], rows.0[r] as int, k, index[3]]),
        n.of(x, seq![index[0], rows.1[r] as int, k, index[3]]),
        literal_row,
    ) by {
        let at = index.update(2, k);
        assert(within(tall, at)) by {
            assert forall|i: int| 0 <= i < 4 implies 0 <= #[trigger] at[i] < tall[i] by {}
        }
        lemma_taken(n, e, rows.0, size.0, 1, at);
        lemma_taken(n, e, rows.1, size.0, 1, at);
        assert(at.update(1, rows.0[r] as int) =~= seq![index[0], rows.0[r] as int, k, index[3]]);
        assert(at.update(1, rows.1[r] as int) =~= seq![index[0], rows.1[r] as int, k, index[3]]);
        assert(row_unit =~= seq![1i64, 1, 1, 1].update(1, size.0));
        lemma_weight(n, x.graph, rows.2, size.0, row_unit, tall, 1, at);
        let gap = second.sub(first);
        let part = gap.mul(row_weight);
        assert(gap is Is && part is Is);
        assert(n.at(gap, at) == n.at(second, at) - n.at(first, at));
        assert(n.at(part, at) == n.at(gap, at) * n.at(row_weight, at));
        assert(n.at(vertical, at) == n.at(first, at) + n.at(part, at));
    }
    lemma_taken(n, vertical, columns.0, size.1, 2, index);
    lemma_taken(n, vertical, columns.1, size.1, 2, index);
    assert(column_unit =~= seq![1i64, 1, 1, 1].update(2, size.1));
    lemma_weight(n, x.graph, columns.2, size.1, column_unit, full, 2, index);
    assert(left->Is_0.dims =~= full) by {
        reveal(applied);
    }
    let gap = right.sub(left);
    let part = gap.mul(column_weight);
    assert(gap is Is && part is Is);
    assert(n.at(gap, index) == n.at(right, index) - n.at(left, index));
    assert(n.at(part, index) == n.at(gap, index) * n.at(column_weight, index));
    assert(n.at(z, index) == n.at(left, index) + n.at(part, index));
}

proof fn lemma_one_volume(size: i64)
    ensures
        crate::shape::volume(seq![size]) matches Some(count) ==> count == size,
{
    assert(seq![size].drop_last() =~= Seq::<i64>::empty());
    reveal_with_fuel(crate::shape::volume, 2);
    assert(1 * size == size) by (nonlinear_arith);
}

} // verus!
