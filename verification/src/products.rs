//! What contractions compute: each element sums products along the contracted
//! axes.
use crate::contraction::{flat_extent, free_axes};
use crate::elements::{
    broadcasting_repeats, copied, lemma_ravel_unit, lemma_unravel, permuted_index, ravel,
    reshape_keeps_the_order, transposing_permutes_the_index, unravel, within, Element,
};
use crate::extents::{product_dims, products_have_the_outer_extents};
use crate::facts::group_extents;
use crate::graph::{applied, Expr, Value};
use crate::matmul::{batch_of, broadcast_shape, lhs_matrix, matrix_of, rhs_matrix};
use crate::shape::{gathered, is_permutation, lemma_volume_nonnegative, volume};
use vstd::arithmetic::div_mod::lemma_fundamental_div_mod;
use vstd::prelude::*;

verus! {

/// The factors of one element of a product of matrices of one batch: a row of
/// the left matrix and a column of the right one, in pairs.
pub open spec fn matrix_factors<A>(
    read: spec_fn(Element) -> A,
    x: Expr,
    y: Expr,
    at: Seq<int>,
    row: int,
    column: int,
    size: nat,
) -> Seq<(A, A)> {
    Seq::new(
        size,
        |j: int|
            (read(copied(x, at + seq![row, j])), read(copied(y, at + seq![j, column]))),
    )
}

/// Whether the reading of one element of a product of matrices is `dot` of its
/// factors.
pub open spec fn product_element<A>(
    read: spec_fn(Element) -> A,
    dot: spec_fn(Seq<(A, A)>) -> A,
    x: Expr,
    y: Expr,
    batch: Seq<i64>,
    extents: (i64, i64, i64),
    at: Seq<int>,
    row: int,
    column: int,
) -> bool {
    let (rows, size, columns) = extents;
    let z = x.batched_product(y, batch + seq![rows, columns]);
    z is Is && x->Is_0.dims == batch + seq![rows, size] && y->Is_0.dims == batch + seq![
        size,
        columns,
    ] && size >= 0 && within(batch, at) && 0 <= row < rows && 0 <= column < columns ==> read(
        copied(z, at + seq![row, column]),
    ) == dot(matrix_factors(read, x, y, at, row, column, size as nat))
}

/// Whether a reading takes products of matrices of one batch to `dot`.
pub open spec fn reads_matrix_products<A>(
    read: spec_fn(Element) -> A,
    dot: spec_fn(Seq<(A, A)>) -> A,
) -> bool {
    forall|
        x: Expr,
        y: Expr,
        batch: Seq<i64>,
        extents: (i64, i64, i64),
        at: Seq<int>,
        row: int,
        column: int,
    | #[trigger]
        product_element(read, dot, x, y, batch, extents, at, row, column)
}

/// The index of a right-aligned operand that a broadcast reads at an index.
pub open spec fn pulled(dims: Seq<i64>, index: Seq<int>) -> Seq<int> {
    Seq::new(
        dims.len(),
        |i: int|
            if dims[i] == 1 {
                0
            } else {
                index[i + index.len() - dims.len()]
            },
    )
}

/// The batch coordinates, row and column of an element of a matrix product.
/// A vector on the left has no row, one on the right no column.
pub open spec fn place(x: Seq<i64>, y: Seq<i64>, index: Seq<int>) -> (Seq<int>, int, int) {
    let rank = broadcast_shape(batch_of(lhs_matrix(x)), batch_of(rhs_matrix(y))).len() as int;
    (
        index.take(rank),
        if x.len() == 1 {
            0
        } else {
            index[rank]
        },
        if y.len() == 1 {
            0
        } else {
            index.last()
        },
    )
}

/// The factors of one element of a matrix product: elements of the operands
/// themselves.
pub open spec fn product_factors<A>(
    read: spec_fn(Element) -> A,
    x: Value,
    y: Value,
    index: Seq<int>,
) -> Seq<(A, A)> {
    let (at, row, column) = place(x.dims, y.dims, index);
    Seq::new(
        x.dims.last() as nat,
        |j: int|
            (
                read(
                    copied(
                        Expr::Is(x),
                        if x.dims.len() == 1 {
                            seq![j]
                        } else {
                            pulled(x.dims, at + seq![row, j])
                        },
                    ),
                ),
                read(
                    copied(
                        Expr::Is(y),
                        if y.dims.len() == 1 {
                            seq![j]
                        } else {
                            pulled(y.dims, at + seq![j, column])
                        },
                    ),
                ),
            ),
    )
}

/// A vector as a row holds its elements in order.
proof fn lemma_row(x: Expr, size: i64, j: int)
    requires
        x is Is,
        x->Is_0.dims == seq![size],
        x.reshape(seq![1, size]) is Is,
        0 <= j < size,
    ensures
        copied(x.reshape(seq![1, size]), seq![0, j]) == copied(x, seq![j]),
{
    reshape_keeps_the_order(x, seq![1, size], seq![0, j]);
    lemma_ravel_unit(seq![size], seq![j], 0);
    assert(seq![size].insert(0, 1) =~= seq![1, size]);
    assert(seq![j].insert(0, 0) =~= seq![0, j]);
    lemma_unravel(seq![size], seq![j]);
}

/// A vector as a column holds its elements in order.
proof fn lemma_column(x: Expr, size: i64, j: int)
    requires
        x is Is,
        x->Is_0.dims == seq![size],
        x.reshape(seq![size, 1]) is Is,
        0 <= j < size,
    ensures
        copied(x.reshape(seq![size, 1]), seq![j, 0]) == copied(x, seq![j]),
{
    reshape_keeps_the_order(x, seq![size, 1], seq![j, 0]);
    lemma_ravel_unit(seq![size], seq![j], 1);
    assert(seq![size].insert(1, 1) =~= seq![size, 1]);
    assert(seq![j].insert(1, 0) =~= seq![j, 0]);
    lemma_unravel(seq![size], seq![j]);
}

/// Dropping the unit axes that vectors were given keeps the elements.
proof fn lemma_without_units(
    z: Expr,
    batch: Seq<i64>,
    rows: i64,
    columns: i64,
    row: bool,
    column: bool,
    at: Seq<int>,
    r: int,
    c: int,
)
    requires
        z is Is,
        z->Is_0.dims == batch + seq![rows, columns],
        row ==> rows == 1,
        column ==> columns == 1,
        within(batch, at),
        0 <= r < rows,
        0 <= c < columns,
        ({
            let first = if row {
                Seq::empty()
            } else {
                seq![rows]
            };
            let second = if column {
                Seq::empty()
            } else {
                seq![columns]
            };
            z.reshape(batch + first + second) is Is
        }),
    ensures
        ({
            let first = if row {
                Seq::empty()
            } else {
                seq![rows]
            };
            let second = if column {
                Seq::empty()
            } else {
                seq![columns]
            };
            let r_at = if row {
                Seq::empty()
            } else {
                seq![r]
            };
            let c_at = if column {
                Seq::empty()
            } else {
                seq![c]
            };
            copied(z.reshape(batch + first + second), at + r_at + c_at) == copied(
                z,
                at + seq![r, c],
            )
        }),
{
    let n = batch.len() as int;
    let first: Seq<i64> = if row {
        Seq::empty()
    } else {
        seq![rows]
    };
    let second: Seq<i64> = if column {
        Seq::empty()
    } else {
        seq![columns]
    };
    let r_at: Seq<int> = if row {
        Seq::empty()
    } else {
        seq![r]
    };
    let c_at: Seq<int> = if column {
        Seq::empty()
    } else {
        seq![c]
    };
    let short = batch + first + second;
    let index = at + r_at + c_at;
    let wide = batch + seq![rows, columns];
    let there = at + seq![r, c];
    reshape_keeps_the_order(z, short, index);
    let middle = batch + seq![rows] + second;
    let half = at + seq![r] + c_at;
    if row {
        lemma_ravel_unit(short, index, n);
        assert(short.insert(n, 1) =~= middle);
        assert(index.insert(n, 0) =~= half);
    }
    assert(ravel(middle, half) == ravel(short, index));
    if column {
        lemma_ravel_unit(middle, half, n + 1);
        assert(middle.insert(n + 1, 1) =~= wide);
        assert(half.insert(n + 1, 0) =~= there);
    } else {
        assert(middle =~= wide);
        assert(half =~= there);
    }
    assert(within(wide, there)) by {
        assert forall|i: int| 0 <= i < wide.len() implies 0 <= #[trigger] there[i] < wide[i] by {
            if i < n {
                assert(0 <= at[i] < batch[i]);
            }
        }
    }
    lemma_unravel(wide, there);
}

/// What a matrix product is built of.
proof fn lemma_built(x: Value, y: Value)
    requires
        Expr::Is(x).matmul(Expr::Is(y)) is Is,
    ensures
        x.dims.len() > 0,
        y.dims.len() > 0,
        ({
            let a = lhs_matrix(x.dims);
            let b = rhs_matrix(y.dims);
            let batch = broadcast_shape(batch_of(a), batch_of(b));
            let rows = a[a.len() - 2];
            let size = a[a.len() - 1];
            let columns = b[b.len() - 1];
            let left = if x.dims.len() == 1 {
                Expr::Is(x).reshape(a)
            } else {
                Expr::Is(x)
            };
            let right = if y.dims.len() == 1 {
                Expr::Is(y).reshape(b)
            } else {
                Expr::Is(y)
            };
            let lhs = left.broadcast_to(batch + seq![rows, size]);
            let rhs = right.broadcast_to(batch + seq![size, columns]);
            let product = lhs.batched_product(rhs, batch + seq![rows, columns]);
            let first: Seq<i64> = if x.dims.len() == 1 {
                Seq::empty()
            } else {
                seq![rows]
            };
            let second: Seq<i64> = if y.dims.len() == 1 {
                Seq::empty()
            } else {
                seq![columns]
            };
            &&& b[b.len() - 2] == size
            &&& left is Is && left->Is_0.dims == a
            &&& right is Is && right->Is_0.dims == b
            &&& lhs is Is && lhs->Is_0.dims == batch + seq![rows, size]
            &&& rhs is Is && rhs->Is_0.dims == batch + seq![size, columns]
            &&& product is Is && product->Is_0.dims == batch + seq![rows, columns]
            &&& Expr::Is(x).matmul(Expr::Is(y)) == if x.dims.len() == 1 || y.dims.len() == 1 {
                product.reshape(batch + first + second)
            } else {
                product
            }
        }),
{
    broadcast use group_extents;

    reveal(Expr::matmul);
    let a = lhs_matrix(x.dims);
    let b = rhs_matrix(y.dims);
    let batch = broadcast_shape(batch_of(a), batch_of(b));
    let rows = a[a.len() - 2];
    let size = a[a.len() - 1];
    let columns = b[b.len() - 1];
    assert(matrix_of(a) =~= seq![rows, size]);
    assert(matrix_of(b) =~= seq![size, columns]);
    let left = if x.dims.len() == 1 {
        Expr::Is(x).reshape(a)
    } else {
        Expr::Is(x)
    };
    let right = if y.dims.len() == 1 {
        Expr::Is(y).reshape(b)
    } else {
        Expr::Is(y)
    };
    let lhs = left.broadcast_to(batch + seq![rows, size]);
    let rhs = right.broadcast_to(batch + seq![size, columns]);
    let product = lhs.batched_product(rhs, batch + seq![rows, columns]);
    assert(product is Is);
    assert(product->Is_0.dims == batch + seq![rows, columns]) by {
        reveal(applied);
    }
}

/// An element of a matrix product is the inner product of a row and a column:
/// the last axis of the left operand and the second last of the right one, or
/// the only axis of a vector, with the batch coordinates that each operand has.
pub proof fn matrix_products_pair_rows_with_columns<A>(
    read: spec_fn(Element) -> A,
    dot: spec_fn(Seq<(A, A)>) -> A,
    x: Value,
    y: Value,
    index: Seq<int>,
)
    requires
        reads_matrix_products(read, dot),
        Expr::Is(x).matmul(Expr::Is(y)) is Is,
        x.dims.len() <= usize::MAX,
        y.dims.len() <= usize::MAX,
        x.dims.last() >= 0,
        within(product_dims(x.dims, y.dims), index),
    ensures
        read(copied(Expr::Is(x).matmul(Expr::Is(y)), index)) == dot(
            product_factors(read, x, y, index),
        ),
{
    lemma_built(x, y);
    let a = lhs_matrix(x.dims);
    let b = rhs_matrix(y.dims);
    let batch = broadcast_shape(batch_of(a), batch_of(b));
    let n = batch.len() as int;
    let rows = a[a.len() - 2];
    let size = a[a.len() - 1];
    let columns = b[b.len() - 1];
    let left = if x.dims.len() == 1 {
        Expr::Is(x).reshape(a)
    } else {
        Expr::Is(x)
    };
    let right = if y.dims.len() == 1 {
        Expr::Is(y).reshape(b)
    } else {
        Expr::Is(y)
    };
    let lhs = left.broadcast_to(batch + seq![rows, size]);
    let rhs = right.broadcast_to(batch + seq![size, columns]);
    let product = lhs.batched_product(rhs, batch + seq![rows, columns]);
    let (at, r, c) = place(x.dims, y.dims, index);
    let dims = product_dims(x.dims, y.dims);
    assert(within(batch, at)) by {
        assert forall|i: int| 0 <= i < batch.len() implies 0 <= #[trigger] at[i] < batch[i] by {
            assert(0 <= index[i] < dims[i]);
        }
    }
    assert(0 <= r < rows) by {
        if x.dims.len() != 1 {
            assert(0 <= index[n] < dims[n]);
        }
    }
    assert(0 <= c < columns) by {
        if y.dims.len() != 1 {
            assert(0 <= index[dims.len() - 1] < dims[dims.len() - 1]);
        }
    }
    let r_at: Seq<int> = if x.dims.len() == 1 {
        Seq::empty()
    } else {
        seq![r]
    };
    let c_at: Seq<int> = if y.dims.len() == 1 {
        Seq::empty()
    } else {
        seq![c]
    };
    assert(index =~= at + r_at + c_at);
    if x.dims.len() == 1 || y.dims.len() == 1 {
        lemma_without_units(
            product,
            batch,
            rows,
            columns,
            x.dims.len() == 1,
            y.dims.len() == 1,
            at,
            r,
            c,
        );
    } else {
        assert(index =~= at + seq![r, c]);
    }
    assert(product_element(read, dot, lhs, rhs, batch, (rows, size, columns), at, r, c));
    let inner = matrix_factors(read, lhs, rhs, at, r, c, size as nat);
    let outer = product_factors(read, x, y, index);
    assert forall|j: int| 0 <= j < size implies #[trigger] inner[j] == outer[j] by {
        lemma_left(x, batch, rows, size, at, r, j);
        lemma_right(y, batch, size, columns, at, c, j);
    }
    assert(inner =~= outer);
}

/// Where an element of the broadcast left operand comes from.
proof fn lemma_left(
    x: Value,
    batch: Seq<i64>,
    rows: i64,
    size: i64,
    at: Seq<int>,
    r: int,
    j: int,
)
    requires
        0 < x.dims.len() <= usize::MAX,
        batch.len() + 2 <= usize::MAX + 1,
        lhs_matrix(x.dims)[lhs_matrix(x.dims).len() - 2] == rows,
        x.dims.last() == size,
        ({
            let left = if x.dims.len() == 1 {
                Expr::Is(x).reshape(lhs_matrix(x.dims))
            } else {
                Expr::Is(x)
            };
            left is Is && left->Is_0.dims == lhs_matrix(x.dims) && left.broadcast_to(
                batch + seq![rows, size],
            ) is Is
        }),
        within(batch, at),
        0 <= r < rows,
        0 <= j < size,
    ensures
        ({
            let left = if x.dims.len() == 1 {
                Expr::Is(x).reshape(lhs_matrix(x.dims))
            } else {
                Expr::Is(x)
            };
            copied(left.broadcast_to(batch + seq![rows, size]), at + seq![r, j]) == copied(
                Expr::Is(x),
                if x.dims.len() == 1 {
                    seq![j]
                } else {
                    pulled(x.dims, at + seq![r, j])
                },
            )
        }),
{
    let a = lhs_matrix(x.dims);
    let left = if x.dims.len() == 1 {
        Expr::Is(x).reshape(a)
    } else {
        Expr::Is(x)
    };
    let wide = batch + seq![rows, size];
    let there = at + seq![r, j];
    assert(within(wide, there)) by {
        assert forall|i: int| 0 <= i < wide.len() implies 0 <= #[trigger] there[i] < wide[i] by {
            if i < batch.len() {
                assert(0 <= at[i] < batch[i]);
            }
        }
    }
    broadcasting_repeats(left, wide, there);
    let source = Seq::new(
        a.len(),
        |i: int|
            if a[i] == 1 {
                0
            } else {
                there[i + wide.len() - a.len()]
            },
    );
    assert(source =~= pulled(a, there));
    if x.dims.len() == 1 {
        assert(x.dims =~= seq![size]);
        assert(a =~= seq![1, size]);
        assert(source =~= seq![0, j]);
        lemma_row(Expr::Is(x), size, j);
    }
}

/// Where an element of the broadcast right operand comes from.
proof fn lemma_right(
    y: Value,
    batch: Seq<i64>,
    size: i64,
    columns: i64,
    at: Seq<int>,
    c: int,
    j: int,
)
    requires
        0 < y.dims.len() <= usize::MAX,
        batch.len() + 2 <= usize::MAX + 1,
        rhs_matrix(y.dims)[rhs_matrix(y.dims).len() - 2] == size,
        rhs_matrix(y.dims).last() == columns,
        ({
            let right = if y.dims.len() == 1 {
                Expr::Is(y).reshape(rhs_matrix(y.dims))
            } else {
                Expr::Is(y)
            };
            right is Is && right->Is_0.dims == rhs_matrix(y.dims) && right.broadcast_to(
                batch + seq![size, columns],
            ) is Is
        }),
        within(batch, at),
        0 <= c < columns,
        0 <= j < size,
    ensures
        ({
            let right = if y.dims.len() == 1 {
                Expr::Is(y).reshape(rhs_matrix(y.dims))
            } else {
                Expr::Is(y)
            };
            copied(right.broadcast_to(batch + seq![size, columns]), at + seq![j, c]) == copied(
                Expr::Is(y),
                if y.dims.len() == 1 {
                    seq![j]
                } else {
                    pulled(y.dims, at + seq![j, c])
                },
            )
        }),
{
    let b = rhs_matrix(y.dims);
    let right = if y.dims.len() == 1 {
        Expr::Is(y).reshape(b)
    } else {
        Expr::Is(y)
    };
    let wide = batch + seq![size, columns];
    let there = at + seq![j, c];
    assert(within(wide, there)) by {
        assert forall|i: int| 0 <= i < wide.len() implies 0 <= #[trigger] there[i] < wide[i] by {
            if i < batch.len() {
                assert(0 <= at[i] < batch[i]);
            }
        }
    }
    broadcasting_repeats(right, wide, there);
    let source = Seq::new(
        b.len(),
        |i: int|
            if b[i] == 1 {
                0
            } else {
                there[i + wide.len() - b.len()]
            },
    );
    assert(source =~= pulled(b, there));
    if y.dims.len() == 1 {
        assert(y.dims =~= seq![size]);
        assert(b =~= seq![size, 1]);
        assert(source =~= seq![j, 0]);
        lemma_column(Expr::Is(y), size, j);
    }
}

/// The position of an index of joined extents.
proof fn lemma_joined_position(a: Seq<i64>, i: Seq<int>, b: Seq<i64>, j: Seq<int>)
    requires
        i.len() == a.len(),
        j.len() == b.len(),
        flat_extent(b) is Some,
    ensures
        ravel(a + b, i + j) == ravel(a, i) * flat_extent(b)->Some_0 + ravel(b, j),
    decreases b.len(),
{
    if b.len() == 0 {
        assert(a + b =~= a);
        assert(i + j =~= i);
    } else {
        lemma_joined_position(a, i, b.drop_last(), j.drop_last());
        assert((a + b).drop_last() =~= a + b.drop_last());
        assert((i + j).drop_last() =~= i + j.drop_last());
        let r = ravel(a, i);
        let f = flat_extent(b.drop_last())->Some_0;
        let q = ravel(b.drop_last(), j.drop_last());
        let d = b.last() as int;
        assert((r * f + q) * d == r * (f * d) + q * d) by (nonlinear_arith);
    }
}

/// Positions lie below the flat extent.
proof fn lemma_flat_bound(dims: Seq<i64>, index: Seq<int>)
    requires
        within(dims, index),
        flat_extent(dims) is Some,
    ensures
        0 <= ravel(dims, index) < flat_extent(dims)->Some_0,
    decreases dims.len(),
{
    if dims.len() > 0 {
        let front = dims.drop_last();
        let before = index.drop_last();
        assert forall|i: int| 0 <= i < front.len() implies 0 <= #[trigger] before[i] < front[i] by {
            assert(0 <= index[i] < dims[i]);
        }
        lemma_flat_bound(front, before);
        let at = ravel(front, before);
        let count = flat_extent(front)->Some_0;
        let size = dims.last() as int;
        let rest = index.last();
        assert(0 <= index[dims.len() - 1] < dims[dims.len() - 1]);
        assert(0 <= at * size + rest < count * size) by (nonlinear_arith)
            requires
                0 <= at <= count - 1,
                0 <= rest < size,
        ;
    }
}

/// A position below the flat extent has an index, which leads back to it.
proof fn lemma_flat_index(dims: Seq<i64>, position: int)
    requires
        flat_extent(dims) is Some,
        forall|i: int| 0 <= i < dims.len() ==> #[trigger] dims[i] >= 0,
        0 <= position < flat_extent(dims)->Some_0,
    ensures
        within(dims, unravel(dims, position)),
        ravel(dims, unravel(dims, position)) == position,
    decreases dims.len(),
{
    if dims.len() > 0 {
        let front = dims.drop_last();
        let count = flat_extent(front)->Some_0;
        let size = dims.last() as int;
        assert(dims[dims.len() - 1] >= 0);
        assert(size > 0) by (nonlinear_arith)
            requires
                0 <= position < count * size,
                size >= 0,
        ;
        lemma_fundamental_div_mod(position, size);
        let q = position / size;
        let r = position % size;
        assert(0 <= q < count) by (nonlinear_arith)
            requires
                position == size * q + r,
                0 <= r < size,
                0 <= position < count * size,
        ;
        assert forall|i: int| 0 <= i < front.len() implies #[trigger] front[i] >= 0 by {
            assert(dims[i] >= 0);
        }
        lemma_flat_index(front, q);
        let index = unravel(dims, position);
        assert(index.drop_last() =~= unravel(front, q));
        assert(q * size == size * q) by (nonlinear_arith);
        assert forall|i: int| 0 <= i < dims.len() implies 0 <= #[trigger] index[i] < dims[i] by {
            if i < front.len() {
                assert(0 <= unravel(front, q)[i] < front[i]);
            }
        }
    }
}

/// A transposed value read at an index.
pub(crate) proof fn lemma_transposed(x: Expr, permutation: Seq<usize>, index: Seq<int>)
    requires
        x.transpose(permutation) is Is,
        index.len() == x->Is_0.dims.len(),
        index.len() <= usize::MAX,
    ensures
        permutation.len() == index.len(),
        copied(x.transpose(permutation), index) == copied(x, permuted_index(permutation, index)),
{
    let source = permuted_index(permutation, index);
    assert(is_permutation(permutation, index.len()));
    transposing_permutes_the_index(x, permutation, source);
    let back = Seq::new(source.len(), |i: int| source[permutation[i] as int]);
    assert forall|i: int| 0 <= i < index.len() implies #[trigger] back[i] == index[i] by {
        let axis = permutation[i];
        let k = permutation.index_of(axis);
        assert(permutation.contains(axis));
        assert(permutation[k] == axis && 0 <= k < permutation.len());
        assert(k == i);
    }
    assert(back =~= index);
}

/// A value with its axes in order and two groups of them flattened, read at a
/// batch index and a position in each group.
proof fn lemma_flattened(
    x: Expr,
    permutation: Seq<usize>,
    batch: Seq<i64>,
    first: Seq<i64>,
    second: Seq<i64>,
    at: Seq<int>,
    i: Seq<int>,
    j: Seq<int>,
)
    requires
        x is Is,
        x->Is_0.dims.len() <= usize::MAX,
        flat_extent(first) is Some,
        flat_extent(second) is Some,
        0 <= flat_extent(first)->Some_0 <= i64::MAX,
        0 <= flat_extent(second)->Some_0 <= i64::MAX,
        gathered(x->Is_0.dims, permutation) == batch + first + second,
        within(batch, at),
        within(first, i),
        within(second, j),
        x.transpose(permutation).reshape(
            batch + seq![flat_extent(first)->Some_0 as i64, flat_extent(second)->Some_0 as i64],
        ) is Is,
    ensures
        copied(
            x.transpose(permutation).reshape(
                batch + seq![flat_extent(first)->Some_0 as i64, flat_extent(second)->Some_0 as i64],
            ),
            at + seq![ravel(first, i), ravel(second, j)],
        ) == copied(x, permuted_index(permutation, at + i + j)),
{
    broadcast use group_extents;

    let t = x.transpose(permutation);
    let m = flat_extent(first)->Some_0;
    let n = flat_extent(second)->Some_0;
    let flat = batch + seq![m as i64, n as i64];
    let dims = batch + first + second;
    let index = at + i + j;
    let (p, q) = (ravel(first, i), ravel(second, j));
    let there = at + seq![p, q];
    reshape_keeps_the_order(t, flat, there);
    assert(t->Is_0.dims == dims);
    lemma_positions_agree(batch, first, second, at, i, j);
    assert(within(dims, index)) by {
        assert forall|k: int| 0 <= k < dims.len() implies 0 <= #[trigger] index[k] < dims[k] by {
            if k < batch.len() {
                assert(0 <= at[k] < batch[k]);
            } else if k < batch.len() + first.len() {
                assert(0 <= i[k - batch.len()] < first[k - batch.len()]);
            } else {
                let l = k - batch.len() - first.len();
                assert(0 <= j[l] < second[l]);
            }
        }
    }
    lemma_unravel(dims, index);
    lemma_transposed(x, permutation, index);
}

/// Flattening two groups of axes keeps the row-major position.
proof fn lemma_positions_agree(
    batch: Seq<i64>,
    first: Seq<i64>,
    second: Seq<i64>,
    at: Seq<int>,
    i: Seq<int>,
    j: Seq<int>,
)
    requires
        flat_extent(first) is Some,
        flat_extent(second) is Some,
        0 <= flat_extent(first)->Some_0 <= i64::MAX,
        0 <= flat_extent(second)->Some_0 <= i64::MAX,
        at.len() == batch.len(),
        i.len() == first.len(),
        j.len() == second.len(),
    ensures
        ravel(
            batch + seq![flat_extent(first)->Some_0 as i64, flat_extent(second)->Some_0 as i64],
            at + seq![ravel(first, i), ravel(second, j)],
        ) == ravel(batch + first + second, at + i + j),
{
    let m = flat_extent(first)->Some_0;
    let n = flat_extent(second)->Some_0;
    let flat = batch + seq![m as i64, n as i64];
    let there = at + seq![ravel(first, i), ravel(second, j)];
    lemma_joined_position(batch, at, first, i);
    lemma_joined_position(batch + first, at + i, second, j);
    assert(flat.drop_last() =~= batch.push(m as i64));
    assert(there.drop_last() =~= at.push(ravel(first, i)));
    assert(batch.push(m as i64).drop_last() =~= batch);
    assert(at.push(ravel(first, i)).drop_last() =~= at);
    reveal_with_fuel(ravel, 3);
}

/// The factors of one element of a contraction. Each operand is read at the
/// coordinates of its batch and free axes, and at those of its contracted axes
/// in turn.
pub open spec fn contraction_factors<A>(
    read: spec_fn(Element) -> A,
    x: Value,
    y: Value,
    contract: (Seq<usize>, Seq<usize>),
    batch: (Seq<usize>, Seq<usize>),
    at: Seq<int>,
    i: Seq<int>,
    j: Seq<int>,
) -> Seq<(A, A)> {
    let left = batch.0 + free_axes(x.dims.len(), contract.0 + batch.0) + contract.0;
    let right = batch.1 + contract.1 + free_axes(y.dims.len(), contract.1 + batch.1);
    let inner = gathered(x.dims, contract.0);
    Seq::new(
        flat_extent(inner)->Some_0 as nat,
        |k: int|
            (
                read(copied(Expr::Is(x), permuted_index(left, at + i + unravel(inner, k)))),
                read(copied(Expr::Is(y), permuted_index(right, at + unravel(inner, k) + j))),
            ),
    )
}

/// An index of extents of ones and others is its own broadcast source.
pub(crate) proof fn lemma_pulled_itself(dims: Seq<i64>, index: Seq<int>)
    requires
        within(dims, index),
    ensures
        pulled(dims, index) == index,
{
    assert forall|i: int| 0 <= i < dims.len() implies #[trigger] pulled(dims, index)[i]
        == index[i] by {
        assert(0 <= index[i] < dims[i]);
    }
    assert(pulled(dims, index) =~= index);
}

/// What a contraction is built of.
pub(crate) proof fn lemma_contraction_built(
    x: Value,
    y: Value,
    contract: (Seq<usize>, Seq<usize>),
    batch: (Seq<usize>, Seq<usize>),
)
    requires
        Expr::Is(x).dot_general(Expr::Is(y), contract.0, contract.1, batch.0, batch.1) is Is,
        volume(x.dims) is Some,
        volume(y.dims) is Some,
    ensures
        ({
            let left_free = free_axes(x.dims.len(), contract.0 + batch.0);
            let right_free = free_axes(y.dims.len(), contract.1 + batch.1);
            let outer = gathered(x.dims, batch.0);
            let inner = gathered(x.dims, contract.0);
            let first = gathered(x.dims, left_free);
            let second = gathered(y.dims, right_free);
            let (m, k, n) = (
                flat_extent(first)->Some_0,
                flat_extent(inner)->Some_0,
                flat_extent(second)->Some_0,
            );
            let left = Expr::Is(x).transpose(batch.0 + left_free + contract.0).reshape(
                outer + seq![m as i64, k as i64],
            );
            let right = Expr::Is(y).transpose(batch.1 + contract.1 + right_free).reshape(
                outer + seq![k as i64, n as i64],
            );
            &&& flat_extent(first) is Some && 0 <= m <= i64::MAX
            &&& flat_extent(inner) is Some && 0 <= k <= i64::MAX
            &&& flat_extent(second) is Some && 0 <= n <= i64::MAX
            &&& left is Is && left->Is_0.dims == outer + seq![m as i64, k as i64]
            &&& right is Is && right->Is_0.dims == outer + seq![k as i64, n as i64]
            &&& left.matmul(right) is Is
            &&& gathered(x.dims, batch.0 + left_free + contract.0) == outer + first + inner
            &&& gathered(y.dims, batch.1 + contract.1 + right_free) == outer + inner + second
            &&& forall|i: int| 0 <= i < inner.len() ==> #[trigger] inner[i] >= 0
            &&& left.matmul(right).reshape(outer + first + second) is Is
            &&& Expr::Is(x).dot_general(Expr::Is(y), contract.0, contract.1, batch.0, batch.1)
                == left.matmul(right).reshape(outer + first + second)
        }),
{
    broadcast use group_extents;

    reveal(Expr::dot_general);
    let left_free = free_axes(x.dims.len(), contract.0 + batch.0);
    let right_free = free_axes(y.dims.len(), contract.1 + batch.1);
    let outer = gathered(x.dims, batch.0);
    let inner = gathered(x.dims, contract.0);
    let first = gathered(x.dims, left_free);
    let second = gathered(y.dims, right_free);
    lemma_volume_nonnegative(x.dims);
    lemma_volume_nonnegative(y.dims);
    let (m, k, n) = (
        flat_extent(first)->Some_0,
        flat_extent(inner)->Some_0,
        flat_extent(second)->Some_0,
    );
    let tx = Expr::Is(x).transpose(batch.0 + left_free + contract.0);
    let ty = Expr::Is(y).transpose(batch.1 + contract.1 + right_free);
    let left = tx.reshape(outer + seq![m as i64, k as i64]);
    let right = ty.reshape(outer + seq![k as i64, n as i64]);
    assert(left.matmul(right) is Is);
    assert(left is Is && right is Is) by {
        reveal(Expr::matmul);
    }
    assert(tx is Is && ty is Is);
    let lp = batch.0 + left_free + contract.0;
    let rp = batch.1 + contract.1 + right_free;
    assert forall|i: int| 0 <= i < lp.len() implies #[trigger] lp[i] < x.dims.len() by {}
    assert forall|i: int| 0 <= i < rp.len() implies #[trigger] rp[i] < y.dims.len() by {}
    assert forall|i: int| 0 <= i < inner.len() implies #[trigger] inner[i] >= 0 by {
        assert(lp[batch.0.len() + left_free.len() + i] == contract.0[i]);
    }
    assert forall|i: int| 0 <= i < first.len() implies #[trigger] first[i] >= 0 by {
        assert(lp[batch.0.len() + i] == left_free[i]);
    }
    assert forall|i: int| 0 <= i < second.len() implies #[trigger] second[i] >= 0 by {
        assert(rp[batch.1.len() + contract.1.len() + i] == right_free[i]);
    }
    lemma_flat_range(first);
    lemma_flat_range(inner);
    lemma_flat_range(second);
    assert(gathered(x.dims, lp) =~= outer + first + inner);
    let youter = gathered(y.dims, batch.1);
    let yinner = gathered(y.dims, contract.1);
    assert(youter =~= outer) by {
        assert forall|i: int| 0 <= i < outer.len() implies #[trigger] youter[i] == outer[i] by {
            assert(x.dims[batch.0[i] as int] == y.dims[batch.1[i] as int]);
        }
    }
    assert(yinner =~= inner) by {
        assert forall|i: int| 0 <= i < inner.len() implies #[trigger] yinner[i] == inner[i] by {
            assert(x.dims[contract.0[i] as int] == y.dims[contract.1[i] as int]);
        }
    }
    assert(gathered(y.dims, rp) =~= outer + inner + second);
}

/// A flat extent of extents that are not negative is not negative, and fits.
pub(crate) proof fn lemma_flat_range(dims: Seq<i64>)
    requires
        flat_extent(dims) is Some,
        forall|i: int| 0 <= i < dims.len() ==> #[trigger] dims[i] >= 0,
    ensures
        0 <= flat_extent(dims)->Some_0 <= i64::MAX,
    decreases dims.len(),
{
    if dims.len() > 0 {
        let front = dims.drop_last();
        assert forall|i: int| 0 <= i < front.len() implies #[trigger] front[i] >= 0 by {
            assert(dims[i] >= 0);
        }
        lemma_flat_range(front);
        assert(dims[dims.len() - 1] >= 0);
        let n = flat_extent(front)->Some_0;
        let d = dims.last() as int;
        assert(n * d >= 0) by (nonlinear_arith)
            requires
                n >= 0,
                d >= 0,
        ;
    }
}

/// An element of a contraction is the inner product over the contracted axes:
/// its coordinates are those of the batch axes, then of the free axes of the
/// left operand, then of those of the right one.
pub proof fn contractions_pair_the_contracted_axes<A>(
    read: spec_fn(Element) -> A,
    dot: spec_fn(Seq<(A, A)>) -> A,
    x: Value,
    y: Value,
    contract: (Seq<usize>, Seq<usize>),
    batch: (Seq<usize>, Seq<usize>),
    at: Seq<int>,
    i: Seq<int>,
    j: Seq<int>,
)
    requires
        reads_matrix_products(read, dot),
        volume(x.dims) is Some,
        volume(y.dims) is Some,
        x.dims.len() < usize::MAX - 2,
        y.dims.len() < usize::MAX - 2,
        Expr::Is(x).dot_general(Expr::Is(y), contract.0, contract.1, batch.0, batch.1) is Is,
        within(gathered(x.dims, batch.0), at),
        within(gathered(x.dims, free_axes(x.dims.len(), contract.0 + batch.0)), i),
        within(gathered(y.dims, free_axes(y.dims.len(), contract.1 + batch.1)), j),
    ensures
        read(
            copied(
                Expr::Is(x).dot_general(Expr::Is(y), contract.0, contract.1, batch.0, batch.1),
                at + i + j,
            ),
        ) == dot(contraction_factors(read, x, y, contract, batch, at, i, j)),
{
    lemma_contraction_built(x, y, contract, batch);
    let left_free = free_axes(x.dims.len(), contract.0 + batch.0);
    let right_free = free_axes(y.dims.len(), contract.1 + batch.1);
    let lp = batch.0 + left_free + contract.0;
    let rp = batch.1 + contract.1 + right_free;
    let outer = gathered(x.dims, batch.0);
    let inner = gathered(x.dims, contract.0);
    let first = gathered(x.dims, left_free);
    let second = gathered(y.dims, right_free);
    let (m, k, n) = (
        flat_extent(first)->Some_0,
        flat_extent(inner)->Some_0,
        flat_extent(second)->Some_0,
    );
    let left = Expr::Is(x).transpose(lp).reshape(outer + seq![m as i64, k as i64]);
    let right = Expr::Is(y).transpose(rp).reshape(outer + seq![k as i64, n as i64]);
    let flat = outer + seq![m as i64, n as i64];
    let (p, q) = (ravel(first, i), ravel(second, j));
    let there = at + seq![p, q];
    lemma_flat_bound(first, i);
    lemma_flat_bound(second, j);
    assert(within(flat, there)) by {
        assert forall|l: int| 0 <= l < flat.len() implies 0 <= #[trigger] there[l] < flat[l] by {
            if l < outer.len() {
                assert(0 <= at[l] < outer[l]);
            }
        }
    }
    let (xv, yv) = (left->Is_0, right->Is_0);
    assert(batch_of(xv.dims) =~= outer);
    assert(batch_of(yv.dims) =~= outer);
    assert(broadcast_shape(outer, outer) =~= outer);
    products_have_the_outer_extents(xv, yv);
    assert(product_dims(xv.dims, yv.dims) =~= flat);
    reshape_keeps_the_order(left.matmul(right), outer + first + second, at + i + j);
    lemma_positions_agree(outer, first, second, at, i, j);
    lemma_unravel(flat, there);
    assert(outer.len() <= x.dims.len()) by {
        assert(lp.len() == x.dims.len());
    }
    assert(xv.dims.last() == k);
    matrix_products_pair_rows_with_columns(read, dot, xv, yv, there);
    let one = product_factors(read, xv, yv, there);
    let other = contraction_factors(read, x, y, contract, batch, at, i, j);
    assert(place(xv.dims, yv.dims, there) == (at, p, q)) by {
        assert(there.take(outer.len() as int) =~= at);
    }
    assert forall|l: int| 0 <= l < k implies #[trigger] one[l] == other[l] by {
        let c = unravel(inner, l);
        lemma_flat_index(inner, l);
        lemma_flattened(Expr::Is(x), lp, outer, first, inner, at, i, c);
        lemma_flattened(Expr::Is(y), rp, outer, inner, second, at, c, j);
        let (u, v) = (at + seq![p, l], at + seq![l, q]);
        assert(within(xv.dims, u)) by {
            assert forall|a: int| 0 <= a < u.len() implies 0 <= #[trigger] u[a] < xv.dims[a] by {
                if a < outer.len() {
                    assert(0 <= at[a] < outer[a]);
                }
            }
        }
        assert(within(yv.dims, v)) by {
            assert forall|a: int| 0 <= a < v.len() implies 0 <= #[trigger] v[a] < yv.dims[a] by {
                if a < outer.len() {
                    assert(0 <= at[a] < outer[a]);
                }
            }
        }
        lemma_pulled_itself(xv.dims, u);
        lemma_pulled_itself(yv.dims, v);
    }
    assert(one =~= other);
}

} // verus!




