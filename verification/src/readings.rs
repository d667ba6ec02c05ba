//! Products, sums and scans, read as numbers.
use crate::dtype::is_floating;
use crate::elements::{copied, transposing_permutes_the_index, within, Element};
use crate::extents::{product_dims, products_have_the_outer_extents};
use crate::facts::group_extents;
use crate::graph::{applied, Expr, Value};
use crate::likelihoods::log_additions_exponentiate_to_sums;
use crate::matmul::{batch_of, broadcast_shape, lhs_matrix, rhs_matrix};
use crate::numbers::{group_numbers, group_operands, spread_number, total, Numbers};
use crate::prefixes::{cumulative_scans_sum_exponentials, line, reads_combined, running_sum};
use crate::products::{
    matrix_factors, matrix_products_pair_rows_with_columns, place, product_element, product_factors,
    pulled, reads_matrix_products,
};
use crate::scans::Combine;
use crate::shape::volume;
use vstd::prelude::*;

verus! {

/// The sum of the products of pairs.
pub open spec fn summed_products(pairs: Seq<(real, real)>) -> real {
    total(Seq::new(pairs.len(), |k: int| pairs[k].0 * pairs[k].1))
}

/// A matrix product sums the products of a row and a column.
pub proof fn matrix_products_sum_products(n: Numbers)
    requires
        n.computes(),
    ensures
        reads_matrix_products(n.read, |pairs: Seq<(real, real)>| summed_products(pairs)),
{
    let dot = |pairs: Seq<(real, real)>| summed_products(pairs);
    assert forall|
        x: Expr,
        y: Expr,
        batch: Seq<i64>,
        extents: (i64, i64, i64),
        at: Seq<int>,
        row: int,
        column: int,
    | #[trigger]
        product_element(n.read, dot, x, y, batch, extents, at, row, column) by {
        let (rows, size, columns) = extents;
        let dims = batch + seq![rows, columns];
        let z = x.batched_product(y, dims);
        if z is Is && x->Is_0.dims == batch + seq![rows, size] && y->Is_0.dims == batch + seq![
            size,
            columns,
        ] && size >= 0 && within(batch, at) && 0 <= row < rows && 0 <= column < columns {
            let v = z->Is_0;
            let index = at + seq![row, column];
            assert(v.op is Matmul && v.args == seq![x->Is_0, y->Is_0] && v.dims == dims) by {
                reveal(applied);
            }
            assert(within(dims, index)) by {
                assert forall|i: int| 0 <= i < dims.len() implies 0 <= #[trigger] index[i]
                    < dims[i] by {
                    if i < batch.len() {
                        assert(0 <= at[i] < batch[i]);
                    }
                }
            }
            assert(index.take(index.len() - 2) =~= at);
            reveal(Numbers::obeys);
            assert(n.obeys(v, index));
            let pairs = matrix_factors(n.read, x, y, at, row, column, size as nat);
            assert(x->Is_0.dims.last() == size);
            let mine = Seq::new(
                v.args[0].dims.last() as nat,
                |j: int| n.of(v.args[0], at + seq![row, j]) * n.of(v.args[1], at + seq![j, column]),
            );
            let theirs = Seq::new(pairs.len(), |k: int| pairs[k].0 * pairs[k].1);
            assert(mine =~= theirs);
        }
    }
}

/// Each element of a matrix product is the sum of the products of the elements
/// of its row and its column.
pub proof fn matrix_products_are_inner_products(n: Numbers, x: Value, y: Value, index: Seq<int>)
    requires
        n.computes(),
        Expr::Is(x).matmul(Expr::Is(y)) is Is,
        x.dims.len() <= usize::MAX,
        y.dims.len() <= usize::MAX,
        x.dims.last() >= 0,
        within(product_dims(x.dims, y.dims), index),
    ensures
        n.at(Expr::Is(x).matmul(Expr::Is(y)), index) == summed_products(
            product_factors(n.read, x, y, index),
        ),
{
    let dot = |pairs: Seq<(real, real)>| summed_products(pairs);
    matrix_products_sum_products(n);
    matrix_products_pair_rows_with_columns(n.read, dot, x, y, index);
}

/// A running log-sum-exp exponentiates to the running sum of the exponentials.
pub proof fn running_log_sums_exponentiate_to_running_sums(
    n: Numbers,
    x: Value,
    axis: usize,
    index: Seq<int>,
)
    requires
        n.lawful(),
        volume(x.dims) is Some,
        x.dims.len() <= usize::MAX,
        Expr::Is(x).logcumsumexp(axis) is Is,
        within(x.dims, index),
    ensures
        (n.exp)(n.at(Expr::Is(x).logcumsumexp(axis), index)) == running_sum(
            line(|e: Element| (n.exp)((n.read)(e)), Expr::Is(x), axis, index),
            index[axis as int],
        ),
{
    let exponential = |e: Element| (n.exp)((n.read)(e));
    let join = |a: real, b: real| a + b;
    assert(reads_combined(exponential, join, Combine::LogAddExp)) by {
        assert forall|p: Expr, q: Expr, at: Seq<int>|
            p.combined(q, Combine::LogAddExp) is Is && within(p->Is_0.dims, at) implies exponential(
            #[trigger] copied(p.combined(q, Combine::LogAddExp), at),
        ) == join(exponential(copied(p, at)), exponential(copied(q, at))) by {
            reveal(Expr::combined);
            log_additions_exponentiate_to_sums(n, p, q, at);
        }
    }
    cumulative_scans_sum_exponentials(exponential, x, axis, index);
}

/// The extents of a product with one matrix.
proof fn lemma_linear_dims(x: Seq<i64>, y: Seq<i64>)
    requires
        x.len() > 0,
        y.len() == 2,
    ensures
        product_dims(x, y) == x.drop_last().push(y[1]),
        broadcast_shape(batch_of(lhs_matrix(x)), batch_of(rhs_matrix(y))).len() == if x.len() == 1 {
            0
        } else {
            (x.len() - 2) as nat
        },
{
    let batch = batch_of(lhs_matrix(x));
    let joint = broadcast_shape(batch, batch_of(rhs_matrix(y)));
    assert(joint =~= batch);
    assert(product_dims(x, y) =~= x.drop_last().push(y[1]));
}

/// A linear layer takes the last axis to its inner products with the rows of the
/// weight, plus the bias.
#[verifier::rlimit(40)]
pub proof fn linear_layers_take_inner_products(
    n: Numbers,
    x: Value,
    weight: Value,
    bias: Option<Value>,
    at: Seq<int>,
    o: int,
)
    requires
        n.lawful(),
        Expr::Is(x).linear(Expr::Is(weight), bias) is Is,
        x.dims.len() <= usize::MAX,
        x.dims.last() >= 0,
        within(x.dims.drop_last(), at),
        0 <= o < weight.dims[0],
    ensures
        n.at(Expr::Is(x).linear(Expr::Is(weight), bias), at.push(o)) == total(
            Seq::new(
                x.dims.last() as nat,
                |i: int| n.of(x, at.push(i)) * n.of(weight, seq![o, i]),
            ),
        ) + match bias {
            None => 0 as real,
            Some(b) => n.of(b, seq![o]),
        },
{
    broadcast use {group_extents, group_operands, group_numbers};

    let turned = Expr::Is(weight).transpose(seq![1, 0]);
    let product = Expr::Is(x).matmul(turned);
    assert(product is Is && turned is Is && is_floating(product->Is_0.dtype)) by {
        reveal(Expr::matmul);
        reveal(applied);
    }
    let y = turned->Is_0;
    let size = x.dims.last();
    let outputs = weight.dims[0];
    assert(y.dims =~= seq![size, outputs]) by {
        reveal(applied);
    }
    products_have_the_outer_extents(x, y);
    let front = x.dims.drop_last();
    let index = at.push(o);
    let dims = product_dims(x.dims, y.dims);
    assert(dims =~= front.push(outputs)) by {
        lemma_linear_dims(x.dims, y.dims);
    }
    assert(within(dims, index)) by {
        assert forall|i: int| 0 <= i < dims.len() implies 0 <= #[trigger] index[i] < dims[i] by {
            if i < front.len() {
                assert(0 <= at[i] < front[i]);
            }
        }
    }
    matrix_products_are_inner_products(n, x, y, index);
    let pairs = product_factors(n.read, x, y, index);
    let mine = Seq::new(pairs.len(), |k: int| pairs[k].0 * pairs[k].1);
    let theirs = Seq::new(size as nat, |i: int| n.of(x, at.push(i)) * n.of(weight, seq![o, i]));
    let (batch, row, column) = place(x.dims, y.dims, index);
    lemma_linear_dims(x.dims, y.dims);
    assert forall|i: int| 0 <= i < size implies #[trigger] mine[i] == theirs[i] by {
        if x.dims.len() == 1 {
            assert(at.push(i) =~= seq![i]);
        } else {
            let there = batch + seq![row, i];
            assert(there =~= at.push(i));
            assert(pulled(x.dims, there) =~= at.push(i)) by {
                assert forall|d: int| 0 <= d < x.dims.len() implies #[trigger] pulled(
                    x.dims,
                    there,
                )[d] == at.push(i)[d] by {
                    if d < front.len() {
                        assert(0 <= at[d] < front[d]);
                    }
                }
            }
        }
        let spot = batch + seq![i, column];
        assert(pulled(y.dims, spot) =~= seq![i, o]) by {
            assert(spot[spot.len() - 2] == i && spot[spot.len() - 1] == o);
        }
        transposing_permutes_the_index(Expr::Is(weight), seq![1, 0], seq![o, i]);
        let order = seq![1usize, 0usize];
        assert(Seq::new(2, |d: int| seq![o, i][order[d] as int]) =~= seq![i, o]);
    }
    assert(mine =~= theirs);
    if let Some(b) = bias {
        let z = product->Is_0;
        let spread = Expr::Is(b).broadcast_to(z.dims);
        assert(Expr::Is(x).linear(Expr::Is(weight), bias) == product.add(spread));
        assert(spread is Is);
        spread_number(n, Expr::Is(b), z.dims, index);
        assert(pulled(b.dims, index) =~= seq![o]);
    }
}

} // verus!
