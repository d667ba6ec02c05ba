//! Where the elements of diagonals come from, and where embedding puts them.
use crate::contraction::{
    diagonal_column, diagonal_length, diagonal_row, free_axes, last_two_padded, with_last,
};
use crate::elements::{
    copied, lemma_padding, lemma_unravel, origin, ravel, reshape_keeps_the_order,
    slices_read_by_their_strides, transposing_permutes_the_index, unit_axes_hold_the_same_elements,
    unpadded_index, within, Element,
};
use crate::facts::group_extents;
use crate::graph::{applied, scalar, Expr};
use crate::indexing::slices_of;
use crate::op::{Scalar, Widths, F32_ZERO};
use crate::shape::{gathered, is_permutation, volume};
use crate::sound::{padded, slice_dims, slice_extent, slice_fits};
use crate::success::{lemma_made_reshape, lemma_made_sliced, made};
use vstd::arithmetic::div_mod::lemma_fundamental_div_mod_converse;
use vstd::prelude::*;

verus! {

/// The constant zero, as an element.
pub open spec fn zero_element(graph: u64) -> Element {
    Element { value: scalar(graph, Scalar::Bits(F32_ZERO))->Is_0, index: Seq::empty() }
}

/// Zero padding keeps the interior and holds the constant zero elsewhere.
pub proof fn zero_padding_surrounds_the_interior(x: Expr, padding: Seq<Widths>, index: Seq<int>)
    requires
        x.pad(padding, Scalar::Bits(F32_ZERO)) is Is,
        within(padded(x->Is_0.dims, padding), index),
    ensures
        x.pad(padding, Scalar::Bits(F32_ZERO))->Is_0.dims == padded(x->Is_0.dims, padding),
        x.pad(padding, Scalar::Bits(F32_ZERO))->Is_0.graph == x->Is_0.graph,
        copied(x.pad(padding, Scalar::Bits(F32_ZERO)), index) == if within(
            x->Is_0.dims,
            unpadded_index(padding, index),
        ) {
            copied(x, unpadded_index(padding, index))
        } else {
            zero_element(x->Is_0.graph)
        },
{
    reveal(applied);
    reveal(origin);
    let dims = x->Is_0.dims;
    let zero = scalar(x->Is_0.graph, Scalar::Bits(F32_ZERO));
    assert(zero is Is ==> origin(zero->Is_0, Seq::empty()) == zero_element(x->Is_0.graph));
    lemma_padding(dims, padding, padding.len());
    if padded(dims, padding) == dims {
        let inner = unpadded_index(padding, index);
        assert forall|i: int| 0 <= i < dims.len() implies #[trigger] inner[i] == index[i] by {
            assert(padded(dims, padding)[i] == dims[i]);
            assert(padding[i].0 >= 0);
        }
        assert(inner =~= index);
    }
}

/// Merging the last two axes keeps the row-major position.
proof fn lemma_merged(dims: Seq<i64>, m: i64, k: i64, index: Seq<int>, p: int, q: int)
    requires
        index.len() == dims.len(),
        i64::MIN <= m * k <= i64::MAX,
    ensures
        ravel(dims.push(m).push(k), index.push(p).push(q)) == ravel(
            dims.push((m * k) as i64),
            index.push(p * k + q),
        ),
{
    let wide = dims.push(m).push(k);
    let longer = index.push(p).push(q);
    assert(wide.drop_last() =~= dims.push(m));
    assert(longer.drop_last() =~= index.push(p));
    assert(dims.push(m).drop_last() =~= dims);
    assert(index.push(p).drop_last() =~= index);
    assert(dims.push((m * k) as i64).drop_last() =~= dims);
    assert(index.push(p * k + q).drop_last() =~= index);
    let r = ravel(dims, index);
    assert(ravel(dims.push(m), index.push(p)) == r * m + p);
    assert((r * m + p) * k + q == r * (m * k) + (p * k + q)) by (nonlinear_arith);
}

/// The staging rows of an embedding are one longer than its rows: an entry
/// starts a staging row just on the diagonal.
proof fn lemma_staggered(r: int, c: int, n: int)
    requires
        0 <= r < n,
        0 <= c < n,
    ensures
        ((r * n + c) % (n + 1) == 0) <==> r == c,
        r == c ==> (r * n + c) / (n + 1) == r,
        0 <= r * n + c < n * n,
        0 <= (r * n + c) / (n + 1) < n,
        0 <= (r * n + c) % (n + 1) < n + 1,
        r * n + c == ((r * n + c) / (n + 1)) * (n + 1) + (r * n + c) % (n + 1),
{
    let t = r * n + c;
    assert(r * (n + 1) == r * n + r) by (nonlinear_arith);
    assert((r - 1) * (n + 1) == r * n + r - n - 1) by (nonlinear_arith);
    assert(r * n + c < n * n) by (nonlinear_arith)
        requires
            0 <= r < n,
            0 <= c < n,
    ;
    assert(r * n >= 0) by (nonlinear_arith)
        requires
            0 <= r < n,
    ;
    if c >= r {
        lemma_fundamental_div_mod_converse(t, n + 1, r, c - r);
    } else {
        lemma_fundamental_div_mod_converse(t, n + 1, r - 1, n + 1 + c - r);
    }
}

/// The square before an embedding is shifted: the vector on its diagonal.
pub open spec fn embedded_square(x: Expr) -> Expr {
    let rank = x->Is_0.dims.len();
    let n = x->Is_0.dims.last();
    let prefix = x->Is_0.dims.take(rank - 1);
    x.unsqueeze(rank as usize).pad(
        last_two_padded(rank + 1, (0, 0), (0, n)),
        Scalar::Bits(F32_ZERO),
    ).reshape(prefix.push((n * (n + 1)) as i64)).slice(
        with_last(rank, 0, 0),
        prefix.push((n * n) as i64),
        with_last(rank, 1, 1),
    ).reshape(prefix.push(n).push(n))
}

proof fn lemma_square(x: Expr, index: Seq<int>, r: int, c: int)
    requires
        embedded_square(x) is Is,
        x is Is,
        x->Is_0.dims.len() > 0,
        x->Is_0.dims.len() <= usize::MAX,
        volume(x->Is_0.dims) is Some,
        x->Is_0.dims.last() * (x->Is_0.dims.last() + 1) <= i64::MAX,
        within(x->Is_0.dims.drop_last(), index),
        0 <= r < x->Is_0.dims.last(),
        0 <= c < x->Is_0.dims.last(),
    ensures
        embedded_square(x)->Is_0.dims == x->Is_0.dims.push(x->Is_0.dims.last()),
        embedded_square(x)->Is_0.graph == x->Is_0.graph,
        copied(embedded_square(x), index.push(r).push(c)) == if r == c {
            copied(x, index.push(r))
        } else {
            zero_element(x->Is_0.graph)
        },
{
    broadcast use group_extents;

    let v = x->Is_0;
    let rank = v.dims.len();
    let n = v.dims.last();
    let prefix = v.dims.take(rank - 1);
    assert(prefix =~= v.dims.drop_last());
    assert(v.dims =~= prefix.push(n));
    assert(n * n <= n * (n + 1)) by (nonlinear_arith)
        requires
            n >= 0,
    ;
    assert(n * n >= 0) by (nonlinear_arith);
    let unit = x.unsqueeze(rank as usize);
    let padding = last_two_padded(rank + 1, (0, 0), (0, n));
    let staged = unit.pad(padding, Scalar::Bits(F32_ZERO));
    let flat = prefix.push((n * (n + 1)) as i64);
    let line = staged.reshape(flat);
    let limits = prefix.push((n * n) as i64);
    let starts = with_last(rank, 0, 0);
    let strides = with_last(rank, 1, 1);
    let cut = line.slice(starts, limits, strides);
    let square = cut.reshape(prefix.push(n).push(n));
    assert(cut is Is && line is Is && staged is Is && unit is Is);
    let t = r * n + c;
    lemma_staggered(r, c, n as int);
    let (p, q) = (t / (n + 1), t % (n + 1));
    // The square is the cut line, row by row.
    reshape_keeps_the_order(cut, prefix.push(n).push(n), index.push(r).push(c));
    lemma_merged(prefix, n, n, index, r, c);
    slices_read_by_their_strides(line, starts, limits, strides, index.push(t));
    let axes = slices_of(starts, limits, strides);
    assert forall|i: int| 0 <= i < rank implies #[trigger] slice_dims(axes)[i] == limits[i] by {
        assert(axes[i].stride == 1 && axes[i].start == 0);
        assert(slice_extent(axes[i]) == limits[i]);
    }
    assert(slice_dims(axes) =~= limits);
    assert(within(limits, index.push(t))) by {
        assert forall|i: int| 0 <= i < limits.len() implies 0 <= #[trigger] index.push(t)[i]
            < limits[i] by {
            if i < rank - 1 {
                assert(0 <= index[i] < v.dims.drop_last()[i]);
            }
        }
    }
    lemma_unravel(limits, index.push(t));
    let read = Seq::new(index.push(t).len(), |i: int| starts[i] + index.push(t)[i] * strides[i]);
    assert forall|i: int| 0 <= i < read.len() implies #[trigger] read[i] == index.push(t)[i] by {
        assert(strides[i] == 1);
        assert(index.push(t)[i] * 1 == index.push(t)[i]);
    }
    assert(read =~= index.push(t));
    // The line is the staging rows, one after another.
    let rows = prefix.push(n).push((n + 1) as i64);
    let place = index.push(p).push(q);
    reshape_keeps_the_order(staged, flat, index.push(t));
    lemma_merged(prefix, n, (n + 1) as i64, index, p, q);
    assert(within(rows, place)) by {
        assert forall|i: int| 0 <= i < rows.len() implies 0 <= #[trigger] place[i] < rows[i] by {
            if i < rank - 1 {
                assert(0 <= index[i] < v.dims.drop_last()[i]);
            }
        }
    }
    lemma_unravel(rows, place);
    let wide = v.dims.insert(rank as int, 1);
    assert(wide =~= v.dims.push(1));
    assert(padded(wide, padding) =~= rows);
    zero_padding_surrounds_the_interior(unit, padding, place);
    let inner = unpadded_index(padding, place);
    assert(inner =~= place);
    if r == c {
        let local = index.push(p);
        assert(place =~= local.insert(rank as int, 0));
        assert(within(v.dims, local)) by {
            assert forall|i: int| 0 <= i < v.dims.len() implies 0 <= #[trigger] local[i] < v.dims[i] by {
                if i < rank - 1 {
                    assert(0 <= index[i] < v.dims.drop_last()[i]);
                }
            }
        }
        assert(within(wide, inner)) by {
            assert forall|i: int| 0 <= i < wide.len() implies 0 <= #[trigger] inner[i] < wide[i] by {
                if i < rank {
                    assert(0 <= local[i] < v.dims[i]);
                }
            }
        }
        unit_axes_hold_the_same_elements(x, rank as usize, local);
    } else {
        assert(!within(wide, inner)) by {
            assert(inner[rank as int] == q && wide[rank as int] == 1);
        }
    }
}

/// Embedding `[..., N]` on an offset diagonal gives `[..., M, M]` with
/// `M = N + abs(offset)`. Entry `(r, c)` is the vector's element where
/// `c - r` is the offset, and the constant zero elsewhere.
pub proof fn embedding_fills_one_diagonal(x: Expr, offset: i64, index: Seq<int>, r: int, c: int)
    requires
        x.diag_embed(offset) is Is,
        x->Is_0.dims.len() <= usize::MAX,
        volume(x->Is_0.dims) is Some,
        x.diag_embed(offset)->Is_0.dims.len() == index.len() + 2,
        within(x.diag_embed(offset)->Is_0.dims, index.push(r).push(c)),
    ensures
        ({
            let n = x->Is_0.dims.last();
            let side = (n + if offset < 0 {
                -offset
            } else {
                offset as int
            }) as i64;
            x.diag_embed(offset)->Is_0.dims == x->Is_0.dims.drop_last().push(side).push(side)
        }),
        copied(x.diag_embed(offset), index.push(r).push(c)) == if c - r == offset {
            copied(
                x,
                index.push(
                    if offset < 0 {
                        c
                    } else {
                        r
                    },
                ),
            )
        } else {
            zero_element(x->Is_0.graph)
        },
{
    broadcast use group_extents;

    let v = x->Is_0;
    let rank = v.dims.len();
    let n = v.dims.last();
    crate::shape::lemma_volume_nonnegative(v.dims);
    assert(v.dims[rank - 1] >= 0);
    let shift = if offset < 0 {
        -offset
    } else {
        offset as int
    };
    let side = (n + shift) as i64;
    let prefix = v.dims.take(rank - 1);
    assert(prefix =~= v.dims.drop_last());
    let (before, last) = if offset >= 0 {
        ((0i64, shift as i64), (shift as i64, 0i64))
    } else {
        ((shift as i64, 0i64), (0i64, shift as i64))
    };
    let padding = last_two_padded(rank + 1, before, last);
    let square = embedded_square(x);
    assert(x.diag_embed(offset) == square.pad(padding, Scalar::Bits(F32_ZERO)));
    assert(square is Is);
    let dims = prefix.push(n).push(n);
    assert(square->Is_0.dims == dims && square->Is_0.graph == v.graph) by {
        reveal(applied);
    }
    let at = index.push(r).push(c);
    let outer = prefix.push(side).push(side);
    assert(padded(dims, padding) =~= outer);
    assert(x.diag_embed(offset)->Is_0.dims == outer) by {
        reveal(applied);
        lemma_padding(dims, padding, padding.len());
    }
    assert(at[rank as int] == c && at[rank - 1] == r);
    assert(0 <= at[rank as int] < outer[rank as int]);
    assert(0 <= at[rank - 1] < outer[rank - 1]);
    zero_padding_surrounds_the_interior(square, padding, at);
    let (inner_r, inner_c) = if offset >= 0 {
        (r, c - shift)
    } else {
        (r - shift, c)
    };
    let inner = unpadded_index(padding, at);
    assert(inner =~= index.push(inner_r).push(inner_c));
    assert(within(v.dims.drop_last(), index)) by {
        assert forall|i: int| 0 <= i < rank - 1 implies 0 <= #[trigger] index[i] < v.dims.drop_last()[i] by {
            assert(0 <= at[i] < outer[i]);
        }
    }
    if 0 <= inner_r < n && 0 <= inner_c < n {
        assert(within(dims, inner)) by {
            assert forall|i: int| 0 <= i < dims.len() implies 0 <= #[trigger] inner[i] < dims[i] by {
                if i < rank - 1 {
                    assert(0 <= index[i] < v.dims.drop_last()[i]);
                }
            }
        }
        lemma_square(x, index, inner_r, inner_c);
    } else {
        assert(!within(dims, inner)) by {
            assert(inner[rank - 1] == inner_r && inner[rank as int] == inner_c);
            assert(dims[rank - 1] == n && dims[rank as int] == n);
        }
    }
}

/// The coordinates of an index at some axes.
pub open spec fn coordinates_at(index: Seq<int>, axes: Seq<usize>) -> Seq<int> {
    Seq::new(axes.len(), |i: int| index[axes[i] as int])
}

/// The extent of a strided interval that holds a number of elements.
pub(crate) proof fn lemma_interval(start: int, stride: int, length: int)
    requires
        stride > 0,
        length >= 1,
    ensures
        ((start + (length - 1) * stride + 1) - start + stride - 1) / stride == length,
{
    assert((start + (length - 1) * stride + 1) - start + stride - 1 == length * stride + 0)
        by (nonlinear_arith);
    lemma_fundamental_div_mod_converse(length * stride, stride, length, 0);
}

/// A diagonal holds the elements whose second coordinate exceeds the first by
/// the offset, counted from the first of them, after the remaining axes in
/// their order.
pub proof fn diagonals_hold_the_offset_elements(
    x: Expr,
    offset: i64,
    axis1: usize,
    axis2: usize,
    at: Seq<int>,
)
    requires
        x.diagonal(offset, axis1, axis2) is Is,
        x->Is_0.dims.len() <= usize::MAX,
        within(x->Is_0.dims, at),
        at[axis2 as int] - at[axis1 as int] == offset,
    ensures
        ({
            let dims = x->Is_0.dims;
            let others = free_axes(dims.len(), seq![axis1, axis2]);
            let rows = dims[axis1 as int];
            let columns = dims[axis2 as int];
            let place = at[axis1 as int] - diagonal_row(offset, rows);
            &&& x.diagonal(offset, axis1, axis2)->Is_0.dims == gathered(dims, others).push(
                diagonal_length(offset, rows, columns) as i64,
            )
            &&& 0 <= place < diagonal_length(offset, rows, columns)
            &&& copied(
                x.diagonal(offset, axis1, axis2),
                coordinates_at(at, others).push(place),
            ) == copied(x, at)
        }),
{
    broadcast use group_extents;

    reveal(Expr::diagonal);
    let dims = x->Is_0.dims;
    let others = free_axes(dims.len(), seq![axis1, axis2]);
    let rows = dims[axis1 as int];
    let columns = dims[axis2 as int];
    let first = at[axis1 as int];
    let second = at[axis2 as int];
    assert(0 <= first < rows && 0 <= second < columns);
    let row = diagonal_row(offset, rows);
    let column = diagonal_column(offset, columns);
    let length = diagonal_length(offset, rows, columns);
    let place = first - row;
    assert(second == column + place && 0 <= place < length);
    let permutation = others.push(axis1).push(axis2);
    let turned = x.transpose(permutation);
    let rest = gathered(dims, others);
    let shape = rest.push((rows * columns) as i64);
    let start = row * columns + column;
    let stride = if length <= 1 {
        1
    } else {
        columns + 1
    };
    let limit = start + (length - 1) * stride + 1;
    let flat = turned.reshape(shape);
    let starts = with_last(shape.len(), 0, start as i64);
    let limits = shape.update(shape.len() - 1, limit as i64);
    let strides = with_last(shape.len(), 1, stride as i64);
    let result = flat.slice(starts, limits, strides);
    assert(result == x.diagonal(offset, axis1, axis2));
    assert(flat is Is && turned is Is);
    let pre = coordinates_at(at, others);
    // The matrix axes stand last, then merged.
    transposing_permutes_the_index(x, permutation, at);
    assert(permutation.len() == dims.len()) by {
        reveal(applied);
    }
    let there = pre.push(first).push(second);
    assert(Seq::new(at.len(), |i: int| at[permutation[i] as int]) =~= there);
    let wide = rest.push(rows).push(columns);
    assert(turned->Is_0.dims == gathered(dims, permutation));
    assert(gathered(dims, permutation) =~= wide);
    assert(rows * columns >= 0) by (nonlinear_arith)
        requires
            rows >= 0,
            columns >= 0,
    ;
    let t = first * columns + second;
    reshape_keeps_the_order(turned, shape, pre.push(t));
    lemma_merged(rest, rows, columns, pre, first, second);
    assert(within(wide, there)) by {
        assert forall|i: int| 0 <= i < wide.len() implies 0 <= #[trigger] there[i] < wide[i] by {
            if i < others.len() {
                assert(permutation[i] == others[i]);
                assert(permutation[i] < dims.len()) by {
                    reveal(applied);
                }
                assert(0 <= at[others[i] as int] < dims[others[i] as int]);
            }
        }
    }
    lemma_unravel(wide, there);
    // The slice steps along the diagonal.
    assert(start + place * stride == t) by {
        if length <= 1 {
            assert(place == 0);
            assert(0 * stride == 0);
        } else {
            assert(row * columns + column + place * (columns + 1) == (row + place) * columns
                + (column + place)) by (nonlinear_arith);
        }
    }
    lemma_bounds(row, column, place, length, stride, rows as int, columns as int);
    slices_read_by_their_strides(flat, starts, limits, strides, pre.push(place));
    let read = Seq::new(
        pre.push(place).len(),
        |i: int| starts[i] + pre.push(place)[i] * strides[i],
    );
    assert forall|i: int| 0 <= i < read.len() implies #[trigger] read[i] == pre.push(t)[i] by {
        if i < pre.len() {
            assert(strides[i] == 1 && starts[i] == 0);
            assert(pre.push(place)[i] * 1 == pre.push(place)[i]);
        }
    }
    assert(read =~= pre.push(t));
    let axes = slices_of(starts, limits, strides);
    lemma_interval(start, stride, length);
    assert forall|i: int| 0 <= i < shape.len() implies #[trigger] slice_dims(axes)[i] == rest.push(
        length as i64,
    )[i] by {
        if i < rest.len() {
            assert(axes[i].stride == 1 && axes[i].start == 0);
            assert(slice_extent(axes[i]) == shape[i]);
        }
    }
    assert(slice_dims(axes) =~= rest.push(length as i64));
}

/// The steps of a diagonal stay within the matrix.
proof fn lemma_bounds(
    row: int,
    column: int,
    place: int,
    length: int,
    stride: int,
    rows: int,
    columns: int,
)
    requires
        0 <= row,
        0 <= column,
        0 <= place < length,
        row + length <= rows,
        column + length <= columns,
        rows * columns <= i64::MAX,
        stride == if length <= 1 {
            1
        } else {
            columns + 1
        },
    ensures
        0 <= row * columns + column <= i64::MAX,
        0 < stride <= i64::MAX,
        0 <= row * columns + column + (length - 1) * stride + 1 <= i64::MAX,
{
    assert(row * columns + column < rows * columns) by (nonlinear_arith)
        requires
            0 <= row < rows,
            0 <= column < columns,
    ;
    assert(row * columns >= 0) by (nonlinear_arith)
        requires
            0 <= row,
            0 <= columns,
    ;
    if length <= 1 {
        assert((length - 1) * stride == 0) by (nonlinear_arith)
            requires
                length == 1,
        ;
    } else {
        let last = length - 1;
        assert(row * columns + column + last * (columns + 1) == (row + last) * columns + (column
            + last)) by (nonlinear_arith);
        assert((row + last) * columns + (column + last) < rows * columns) by (nonlinear_arith)
            requires
                0 <= row + last < rows,
                0 <= column + last < columns,
        ;
        assert(last * (columns + 1) >= 0) by (nonlinear_arith)
            requires
                0 <= last,
                0 <= columns,
        ;
        assert(columns + 1 <= rows * columns) by (nonlinear_arith)
            requires
                rows >= 2,
                columns >= 2,
        ;
    }
}

/// The axes before some trailing ones.
proof fn lemma_leading_axes(rank: nat, used: Seq<usize>)
    requires
        rank <= usize::MAX,
        forall|k: int| 0 <= k < used.len() ==> rank <= #[trigger] used[k],
    ensures
        free_axes(rank, used).len() == rank,
        forall|i: int| 0 <= i < rank ==> #[trigger] free_axes(rank, used)[i] == i,
    decreases rank,
{
    if rank > 0 {
        lemma_leading_axes((rank - 1) as nat, used);
    }
}

/// The side of the matrices of an embedding.
pub open spec fn embedded_side(n: i64, offset: i64) -> int {
    n + if offset < 0 {
        -offset
    } else {
        offset as int
    }
}

/// An embedding has the extents of its matrices.
proof fn lemma_embedded(x: Expr, offset: i64)
    requires
        x.diag_embed(offset) is Is,
        volume(x->Is_0.dims) is Some,
    ensures
        ({
            let v = x->Is_0;
            let side = embedded_side(v.dims.last(), offset) as i64;
            &&& x is Is
            &&& v.dims.len() > 0
            &&& v.dims.last() >= 0
            &&& embedded_side(v.dims.last(), offset) <= i64::MAX
            &&& volume(v.dims.drop_last().push(side).push(side)) is Some
            &&& made(
                x.diag_embed(offset),
                v.graph,
                v.dims.drop_last().push(side).push(side),
                v.dtype,
            )
        }),
{
    broadcast use group_extents;

    let v = x->Is_0;
    let rank = v.dims.len();
    let n = v.dims.last();
    crate::shape::lemma_volume_nonnegative(v.dims);
    assert(v.dims[rank - 1] >= 0);
    let side = embedded_side(n, offset) as i64;
    let shift = if offset < 0 {
        -offset
    } else {
        offset as int
    };
    let prefix = v.dims.take(rank - 1);
    assert(prefix =~= v.dims.drop_last());
    let (before, last) = if offset >= 0 {
        ((0i64, shift as i64), (shift as i64, 0i64))
    } else {
        ((shift as i64, 0i64), (0i64, shift as i64))
    };
    let padding = last_two_padded(rank + 1, before, last);
    let square = embedded_square(x);
    assert(x.diag_embed(offset) == square.pad(padding, Scalar::Bits(F32_ZERO)));
    let dims = prefix.push(n).push(n);
    assert(square is Is);
    assert(square->Is_0.dims == dims && square->Is_0.graph == v.graph && square->Is_0.dtype
        == v.dtype) by {
        reveal(applied);
    }
    let outer = prefix.push(side).push(side);
    assert(padded(dims, padding) =~= outer);
    reveal(applied);
    lemma_padding(dims, padding, padding.len());
}

/// The slice of an embedding's diagonal stays within its merged rows.
proof fn lemma_embedded_limits(n: int, shift: int, row: int, column: int)
    requires
        1 <= n,
        0 <= shift,
        (row == 0 && column == shift) || (row == shift && column == 0),
    ensures
        ({
            let side = n + shift;
            let start = row * side + column;
            let stride = if n <= 1 {
                1
            } else {
                side + 1
            };
            &&& 0 <= start < start + (n - 1) * stride + 1 <= side * side
            &&& stride <= i64::MAX || side * side > i64::MAX
        }),
{
    let side = n + shift;
    assert(0 <= row * side) by (nonlinear_arith)
        requires
            row >= 0,
            side >= 0,
    ;
    if n <= 1 {
        assert((n - 1) * 1 == 0) by (nonlinear_arith)
            requires
                n == 1,
        ;
        assert(row * side + column + 1 <= side * side) by (nonlinear_arith)
            requires
                side == 1 + shift,
                shift >= 0,
                (row == 0 && column == shift) || (row == shift && column == 0),
        ;
    } else {
        assert(0 <= (n - 1) * (side + 1)) by (nonlinear_arith)
            requires
                n >= 1,
                side >= 0,
        ;
        assert(row * side + column + (n - 1) * (side + 1) + 1 <= side * side) by (nonlinear_arith)
            requires
                side == n + shift,
                n >= 1,
                shift >= 0,
                (row == 0 && column == shift) || (row == shift && column == 0),
        ;
        assert(side + 1 <= side * side) by (nonlinear_arith)
            requires
                side >= 2,
        ;
    }
}

/// Merging two equal trailing axes keeps the element count.
proof fn lemma_square_volume(prefix: Seq<i64>, side: i64)
    requires
        side >= 0,
        side * side <= i64::MAX,
        volume(prefix.push(side).push(side)) is Some,
    ensures
        volume(prefix.push((side * side) as i64)) == if side * side <= usize::MAX {
            volume(prefix.push(side).push(side))
        } else {
            None
        },
{
    reveal_with_fuel(volume, 3);
    let wide = prefix.push(side).push(side);
    let merged = prefix.push((side * side) as i64);
    assert(wide.drop_last() =~= prefix.push(side));
    assert(prefix.push(side).drop_last() =~= prefix);
    assert(merged.drop_last() =~= prefix);
    let count = volume(prefix)->Some_0 as int;
    let s = side as int;
    assert(count * s * s == count * (s * s)) by (nonlinear_arith);
    assert(s * s >= 0) by (nonlinear_arith);
    assert(volume(prefix.push(side)) == Some((count * s) as nat));
    assert(count * s >= 0) by (nonlinear_arith)
        requires
            count >= 0,
            s >= 0,
    ;
}

/// The offset diagonal of an embedding at the same offset is the vector again.
/// It can be taken just where the matrix has no more elements than an extent
/// can count.
pub proof fn diagonals_restore_what_was_embedded(x: Expr, offset: i64)
    requires
        x.diag_embed(offset) is Is,
        x->Is_0.dims.len() < usize::MAX,
        volume(x->Is_0.dims) is Some,
    ensures
        ({
            let dims = x->Is_0.dims;
            let rank = dims.len();
            let side = embedded_side(dims.last(), offset);
            let again = x.diag_embed(offset).diagonal(offset, (rank - 1) as usize, rank as usize);
            &&& again is Is <==> side * side <= i64::MAX && side * side <= usize::MAX
            &&& again is Is ==> made(again, x->Is_0.graph, dims, x->Is_0.dtype)
            &&& again is Is ==> forall|at: Seq<int>|
                within(dims, at) ==> #[trigger] copied(again, at) == copied(x, at)
        }),
{
    let v = x->Is_0;
    let rank = v.dims.len();
    let n = v.dims.last();
    let (axis1, axis2) = ((rank - 1) as usize, rank as usize);
    lemma_embedded(x, offset);
    let side = embedded_side(n, offset) as i64;
    let prefix = v.dims.drop_last();
    let outer = prefix.push(side).push(side);
    let y = x.diag_embed(offset);
    let again = y.diagonal(offset, axis1, axis2);
    assert(outer[rank - 1] == side && outer[rank as int] == side);
    let others = free_axes(outer.len(), seq![axis1, axis2]);
    assert(others == free_axes((rank - 1) as nat, seq![axis1, axis2])) by {
        let used = seq![axis1, axis2];
        assert(used[0] == axis1 && used[1] == axis2);
        reveal_with_fuel(free_axes, 3);
    }
    lemma_leading_axes((rank - 1) as nat, seq![axis1, axis2]);
    let permutation = others.push(axis1).push(axis2);
    assert(forall|i: int| 0 <= i < outer.len() ==> #[trigger] permutation[i] == i);
    assert(is_permutation(permutation, outer.len())) by {
        reveal(is_permutation);
    }
    assert(gathered(outer, permutation) =~= outer);
    assert(gathered(outer, others) =~= prefix);
    let turned = y.transpose(permutation);
    assert(made(turned, v.graph, outer, v.dtype)) by {
        reveal(applied);
    }
    let s = side as int;
    if s * s <= i64::MAX {
        let shape = prefix.push((s * s) as i64);
        lemma_square_volume(prefix, side);
        let (row, column) = (diagonal_row(offset, side), diagonal_column(offset, side));
        let length = diagonal_length(offset, side, side);
        assert(length == n);
        let start = if length == 0 {
            0
        } else {
            row * side + column
        };
        let stride = if length <= 1 {
            1
        } else {
            side + 1
        };
        let limit = if length == 0 {
            0
        } else {
            start + (length - 1) * stride + 1
        };
        let flat = turned.reshape(shape);
        let axes = slices_of(
            with_last(rank, 0, start as i64),
            shape.update(rank - 1, limit as i64),
            with_last(rank, 1, stride as i64),
        );
        assert(again == flat.sliced(axes)) by {
            reveal(Expr::diagonal);
            reveal(applied);
        }
        if s * s > usize::MAX {
            assert(flat is Fails) by {
                reveal(applied);
            }
        } else {
            lemma_made_reshape(turned, v.graph, outer, shape, v.dtype);
            if n > 0 {
                lemma_embedded_limits(n as int, s - n, row, column);
            }
            assert(0 <= s * s) by (nonlinear_arith);
            assert(0 <= start <= limit <= s * s);
            crate::shape::lemma_volume_nonnegative(shape);
            assert forall|i: int| 0 <= i < axes.len() implies slice_fits(
                #[trigger] axes[i],
                shape[i],
            ) by {
                assert(shape[i] >= 0);
            }
            lemma_made_sliced(flat, axes, v.graph, shape, v.dtype);
            assert forall|i: int| 0 <= i < rank implies #[trigger] slice_dims(axes)[i]
                == v.dims[i] by {
                crate::shape::lemma_volume_nonnegative(v.dims);
                assert(v.dims[i] >= 0);
                if i == rank - 1 {
                    assert(axes[i].start == start && axes[i].limit == limit && axes[i].stride
                        == stride);
                    if n > 0 {
                        lemma_interval(start, stride, n as int);
                    } else {
                        assert(slice_extent(axes[i]) == 0);
                    }
                } else {
                    assert(axes[i].stride == 1);
                }
            }
            assert(slice_dims(axes) =~= v.dims);
        }
    } else {
        assert(again is Fails) by {
            reveal(Expr::diagonal);
        }
    }
    if again is Is {
        assert forall|at: Seq<int>| within(v.dims, at) implies #[trigger] copied(again, at)
            == copied(x, at) by {
            let index = at.drop_last();
            let k = at.last();
            assert(0 <= at[rank - 1] < v.dims[rank - 1]);
            let (r, c) = if offset < 0 {
                (k - offset, k)
            } else {
                (k, k + offset)
            };
            let there = index.push(r).push(c);
            assert(within(outer, there)) by {
                assert forall|i: int| 0 <= i < outer.len() implies 0 <= #[trigger] there[i]
                    < outer[i] by {
                    if i < rank - 1 {
                        assert(0 <= at[i] < v.dims[i]);
                    }
                }
            }
            assert(there[rank - 1] == r && there[rank as int] == c);
            embedding_fills_one_diagonal(x, offset, index, r, c);
            assert(index.push(k) =~= at);
            diagonals_hold_the_offset_elements(y, offset, axis1, axis2, there);
            assert(coordinates_at(there, others) =~= index);
        }
    }
}

} // verus!
