//! What an einsum computes: labels take coordinates, repeated ones select
//! diagonals, and those missing from the output are summed over.
use crate::contraction::{flat_extent, free_axes};
use crate::diagonals::{coordinates_at, diagonals_hold_the_offset_elements};
use crate::einsum::{
    batch_labels, consistent, contracted, dangling, extent_of, labels_without,
    lemma_untangled_failed, merged_labels, output_dims, output_order, output_valid, parsed,
    prepared, repeated_from, result_labels, retained, shared_left, shared_right, sums_nothing,
    untangled,
};
use crate::elements::{
    broadcasting_repeats, copied, permuted_index, transposing_permutes_the_index, unravel, within,
    Element,
};
use crate::facts::group_extents;
use crate::gradients::lemma_permutation_onto;
use crate::graph::{applied, scalar, Expr, Value};
use crate::labels::{
    all_sized, labels_at, lemma_dangling, lemma_diagonal_extents, lemma_either, lemma_free_bounded,
    lemma_free_labels, lemma_free_pair, lemma_gathered, lemma_index_some, lemma_merged_members,
    lemma_order, lemma_prepared, lemma_repeated, lemma_result_bounded, lemma_retained_members,
    lemma_shared_left, lemma_shared_right, lemma_untangled, sizes_of,
};
use crate::op::{Scalar, F32_ZERO};
use crate::ops::increasing;
use crate::products::{
    contraction_factors, contractions_pair_the_contracted_axes, lemma_contraction_built,
    reads_matrix_products,
};
use crate::shape::{gathered, is_permutation, lemma_volume_nonnegative, volume};
use vstd::arithmetic::div_mod::lemma_fundamental_div_mod;
use vstd::prelude::*;

verus! {

/// The coordinates that an assignment gives to labels.
pub open spec fn coordinates(labels: Seq<char>, env: spec_fn(char) -> int) -> Seq<int> {
    Seq::new(labels.len(), |i: int| env(labels[i]))
}

/// An assignment with some labels given new coordinates.
pub open spec fn assigned(
    env: spec_fn(char) -> int,
    labels: Seq<char>,
    values: Seq<int>,
) -> spec_fn(char) -> int {
    |c: char|
        if labels.contains(c) {
            values[labels.index_of(c)]
        } else {
            env(c)
        }
}

/// Whether an assignment stays within the extents of labels.
pub open spec fn bounded(
    labels: Seq<char>,
    size: spec_fn(char) -> i64,
    env: spec_fn(char) -> int,
) -> bool {
    forall|i: int| 0 <= i < labels.len() ==> 0 <= env(#[trigger] labels[i]) < size(labels[i])
}

/// The product of extents.
pub open spec fn count(dims: Seq<i64>) -> int
    decreases dims.len(),
{
    if dims.len() == 0 {
        1
    } else {
        count(dims.drop_last()) * dims.last()
    }
}

/// A product of extents that are not negative is not negative.
pub(crate) proof fn lemma_count_range(dims: Seq<i64>)
    requires
        forall|i: int| 0 <= i < dims.len() ==> #[trigger] dims[i] >= 0,
    ensures
        0 <= count(dims),
    decreases dims.len(),
{
    if dims.len() > 0 {
        let front = dims.drop_last();
        assert forall|i: int| 0 <= i < front.len() implies #[trigger] front[i] >= 0 by {
            assert(dims[i] >= 0);
        }
        lemma_count_range(front);
        assert(dims[dims.len() - 1] >= 0);
        let (a, b) = (count(front), dims.last() as int);
        assert(a * b >= 0) by (nonlinear_arith)
            requires
                a >= 0,
                b >= 0,
        ;
    }
}

/// A position below the product of extents has an index among them.
pub(crate) proof fn lemma_counted(dims: Seq<i64>, position: int)
    requires
        forall|i: int| 0 <= i < dims.len() ==> #[trigger] dims[i] >= 0,
        0 <= position < count(dims),
    ensures
        within(dims, unravel(dims, position)),
    decreases dims.len(),
{
    if dims.len() > 0 {
        let front = dims.drop_last();
        let number = count(front);
        let size = dims.last() as int;
        assert(dims[dims.len() - 1] >= 0);
        assert(size > 0) by (nonlinear_arith)
            requires
                0 <= position < number * size,
                size >= 0,
        ;
        lemma_fundamental_div_mod(position, size);
        let q = position / size;
        let r = position % size;
        assert(0 <= q < number) by (nonlinear_arith)
            requires
                position == size * q + r,
                0 <= r < size,
                0 <= position < number * size,
        ;
        assert forall|i: int| 0 <= i < front.len() implies #[trigger] front[i] >= 0 by {
            assert(dims[i] >= 0);
        }
        lemma_counted(front, q);
        let index = unravel(dims, position);
        assert forall|i: int| 0 <= i < dims.len() implies 0 <= #[trigger] index[i] < dims[i] by {
            if i < front.len() {
                assert(0 <= unravel(front, q)[i] < front[i]);
            }
        }
    }
}

/// The coordinates of an assignment are an index of the extents.
proof fn lemma_coordinates_within(
    labels: Seq<char>,
    size: spec_fn(char) -> i64,
    env: spec_fn(char) -> int,
)
    requires
        bounded(labels, size, env),
    ensures
        within(sizes_of(labels, size), coordinates(labels, env)),
{
    let index = coordinates(labels, env);
    let dims = sizes_of(labels, size);
    assert forall|i: int| 0 <= i < dims.len() implies 0 <= #[trigger] index[i] < dims[i] by {
        assert(0 <= env(labels[i]) < size(labels[i]));
    }
}

/// Taking diagonals keeps the element of an assignment.
proof fn lemma_untangled_element(
    v: Value,
    labels: Seq<char>,
    size: spec_fn(char) -> i64,
    env: spec_fn(char) -> int,
)
    requires
        untangled(Expr::Is(v), labels).0 is Is,
        v.dims == sizes_of(labels, size),
        all_sized(labels, size),
        labels.len() <= usize::MAX,
        bounded(labels, size, env),
    ensures
        copied(
            untangled(Expr::Is(v), labels).0,
            coordinates(untangled(Expr::Is(v), labels).1, env),
        ) == copied(Expr::Is(v), coordinates(labels, env)),
    decreases labels.len(),
{
    lemma_repeated(labels, 0);
    if let Some((first, second)) = repeated_from(labels, 0) {
        let merged = merged_labels(labels, first, second);
        let next = Expr::Is(v).diagonal(0, first as usize, second as usize);
        if next is Fails {
            lemma_untangled_failed(next->Fails_0, merged);
        }
        let y = next->Is_0;
        lemma_free_pair(labels.len(), first as usize, second as usize);
        assert(size(labels[first as int]) >= 0);
        lemma_diagonal_extents(v, first as usize, second as usize);
        assert(y.dims =~= sizes_of(merged, size));
        assert forall|i: int| 0 <= i < merged.len() implies size(#[trigger] merged[i]) >= 0 && 0
            <= env(merged[i]) < size(merged[i]) by {
            assert(merged.contains(merged[i]));
            lemma_merged_members(labels, first, second, merged[i]);
            let k = choose|k: int| 0 <= k < labels.len() && labels[k] == merged[i];
            assert(size(labels[k]) >= 0);
            assert(0 <= env(labels[k]) < size(labels[k]));
        }
        let at = coordinates(labels, env);
        lemma_coordinates_within(labels, size, env);
        assert(at[first as int] == at[second as int]);
        diagonals_hold_the_offset_elements(Expr::Is(v), 0, first as usize, second as usize, at);
        let others = free_axes(labels.len(), seq![first as usize, second as usize]);
        assert(coordinates_at(at, others).push(at[first as int]) =~= coordinates(merged, env));
        lemma_untangled_element(y, merged, size, env);
    }
}

/// The coordinates at the axes that are not listed.
pub open spec fn kept_index(index: Seq<int>, axes: Seq<usize>) -> Seq<int>
    decreases index.len(),
{
    if index.len() == 0 {
        Seq::empty()
    } else {
        let rest = kept_index(index.drop_last(), axes);
        if axes.contains((index.len() - 1) as usize) {
            rest
        } else {
            rest.push(index.last())
        }
    }
}

/// An index with the coordinates at the listed axes replaced.
pub open spec fn replaced(index: Seq<int>, axes: Seq<usize>, values: Seq<int>) -> Seq<int> {
    Seq::new(
        index.len(),
        |i: int|
            if axes.contains(i as usize) {
                values[axes.index_of(i as usize)]
            } else {
                index[i]
            },
    )
}

/// The readings of the elements that a sum over axes adds up.
pub open spec fn addends<A>(
    read: spec_fn(Element) -> A,
    x: Expr,
    axes: Seq<usize>,
    index: Seq<int>,
) -> Seq<A> {
    let dims = gathered(x->Is_0.dims, axes);
    Seq::new(
        count(dims) as nat,
        |d: int| read(copied(x, replaced(index, axes, unravel(dims, d)))),
    )
}

/// Whether the reading of one element of a sum over axes is `total` of its
/// addends.
pub open spec fn total_element<A>(
    read: spec_fn(Element) -> A,
    total: spec_fn(Seq<A>) -> A,
    x: Expr,
    axes: Seq<usize>,
    index: Seq<int>,
) -> bool {
    x.sum(axes, false) is Is && axes.len() > 0 && increasing(axes) && within(x->Is_0.dims, index)
        ==> read(copied(x.sum(axes, false), kept_index(index, axes))) == total(
        addends(read, x, axes, index),
    )
}

/// Whether a reading takes sums over axes to `total`.
pub open spec fn reads_totals<A>(
    read: spec_fn(Element) -> A,
    total: spec_fn(Seq<A>) -> A,
) -> bool {
    forall|x: Expr, axes: Seq<usize>, index: Seq<int>| #[trigger]
        total_element(read, total, x, axes, index)
}

/// The labels of an operand that neither the other one nor the output has, each
/// once.
pub open spec fn loose(
    v: Value,
    labels: Seq<char>,
    other: Seq<char>,
    output: Seq<char>,
) -> Seq<char> {
    let distinct = untangled(Expr::Is(v), labels).1;
    labels_at(distinct, dangling(distinct, other, output))
}

/// What an operand contributes under an assignment: its element there, or the
/// total over the labels that only it has.
pub open spec fn contribution<A>(
    read: spec_fn(Element) -> A,
    total: spec_fn(Seq<A>) -> A,
    v: Value,
    names: (Seq<char>, Seq<char>, Seq<char>),
    size: spec_fn(char) -> i64,
    env: spec_fn(char) -> int,
) -> A {
    let (labels, other, output) = names;
    let only = loose(v, labels, other, output);
    let dims = sizes_of(only, size);
    if only.len() == 0 {
        read(copied(Expr::Is(v), coordinates(labels, env)))
    } else {
        total(
            Seq::new(
                count(dims) as nat,
                |d: int|
                    read(
                        copied(
                            Expr::Is(v),
                            coordinates(labels, assigned(env, only, unravel(dims, d))),
                        ),
                    ),
            ),
        )
    }
}

/// The coordinates that stay are those of the retained labels.
proof fn lemma_kept_coordinates(
    labels: Seq<char>,
    number: nat,
    other: Seq<char>,
    output: Seq<char>,
    env: spec_fn(char) -> int,
)
    requires
        number <= labels.len() <= usize::MAX,
    ensures
        kept_index(coordinates(labels.take(number as int), env), dangling(labels, other, output))
            == coordinates(retained(labels.take(number as int), other, output), env),
    decreases number,
{
    let part = labels.take(number as int);
    if number == 0 {
        assert(coordinates(retained(part, other, output), env) =~= Seq::empty());
    } else {
        let front = labels.take(number - 1);
        assert(part.drop_last() =~= front);
        assert(coordinates(part, env).drop_last() =~= coordinates(front, env));
        lemma_kept_coordinates(labels, (number - 1) as nat, other, output, env);
        lemma_dangling(labels, other, output);
        assert(labels[number - 1] == part.last());
        assert(coordinates(retained(part, other, output), env) =~= kept_index(
            coordinates(part, env),
            dangling(labels, other, output),
        ));
    }
}

/// Dangling positions increase.
proof fn lemma_dangling_increases(labels: Seq<char>, other: Seq<char>, output: Seq<char>)
    requires
        labels.len() <= usize::MAX,
    ensures
        increasing(dangling(labels, other, output)),
        forall|k: int|
            0 <= k < dangling(labels, other, output).len() ==> #[trigger] dangling(
                labels,
                other,
                output,
            )[k] < labels.len(),
    decreases labels.len(),
{
    if labels.len() > 0 {
        let rest = dangling(labels.drop_last(), other, output);
        let all = dangling(labels, other, output);
        lemma_dangling_increases(labels.drop_last(), other, output);
        assert forall|k: int| 0 <= k < all.len() implies #[trigger] all[k] < labels.len() by {
            if k < rest.len() {
                assert(rest[k] < labels.len() - 1);
            }
        }
        assert forall|i: int| 0 <= i < all.len() - 1 implies #[trigger] all[i] < all[i + 1] by {
            assert(rest[i] < labels.len() - 1);
            if i + 1 < rest.len() {
                assert(rest[i] < rest[i + 1]);
            }
        }
    }
}

/// Replacing coordinates at positions assigns them to the labels there.
proof fn lemma_replaced_coordinates(
    labels: Seq<char>,
    positions: Seq<usize>,
    values: Seq<int>,
    env: spec_fn(char) -> int,
)
    requires
        labels.no_duplicates(),
        labels.len() <= usize::MAX,
        positions.no_duplicates(),
        forall|k: int| 0 <= k < positions.len() ==> #[trigger] positions[k] < labels.len(),
    ensures
        replaced(coordinates(labels, env), positions, values) == coordinates(
            labels,
            assigned(env, labels_at(labels, positions), values),
        ),
{
    let names = labels_at(labels, positions);
    let one = replaced(coordinates(labels, env), positions, values);
    let other = coordinates(labels, assigned(env, names, values));
    assert forall|i: int| 0 <= i < labels.len() implies #[trigger] one[i] == other[i] by {
        let c = labels[i];
        if positions.contains(i as usize) {
            let k = positions.index_of(i as usize);
            assert(positions[k] == i as usize && 0 <= k < positions.len());
            assert(names[k] == c);
            assert(names.contains(c));
            let m = names.index_of(c);
            assert(names[m] == c && 0 <= m < names.len());
            assert(labels[positions[m] as int] == c);
            assert(positions[m] < labels.len());
            assert(positions[m] == i);
            assert(m == k);
        } else if names.contains(c) {
            let m = names.index_of(c);
            assert(names[m] == c && 0 <= m < names.len());
            assert(positions[m] < labels.len());
            assert(labels[positions[m] as int] == c);
            assert(positions[m] == i);
            assert(positions.contains(i as usize));
        }
    }
    assert(one =~= other);
}

/// A prepared operand holds its contribution.
proof fn lemma_prepared_element<A>(
    read: spec_fn(Element) -> A,
    total: spec_fn(Seq<A>) -> A,
    v: Value,
    names: (Seq<char>, Seq<char>, Seq<char>),
    size: spec_fn(char) -> i64,
    env: spec_fn(char) -> int,
)
    requires
        reads_totals(read, total),
        prepared(Expr::Is(v), names.0, names.1, names.2).0 is Is,
        v.dims == sizes_of(names.0, size),
        all_sized(names.0, size),
        names.0.len() <= usize::MAX,
        bounded(names.0, size, env),
    ensures
        read(
            copied(
                prepared(Expr::Is(v), names.0, names.1, names.2).0,
                coordinates(prepared(Expr::Is(v), names.0, names.1, names.2).1, env),
            ),
        ) == contribution(read, total, v, names, size, env),
{
    reveal(prepared);
    let (labels, other, output) = names;
    let (plain, distinct) = untangled(Expr::Is(v), labels);
    let reduce = dangling(distinct, other, output);
    let only = loose(v, labels, other, output);
    assert(plain is Is) by {
        broadcast use group_extents;

    }
    lemma_untangled(v, labels, size);
    assert(only.len() == reduce.len());
    if reduce.len() == 0 {
        lemma_untangled_element(v, labels, size, env);
    } else {
        lemma_dangling_increases(distinct, other, output);
        assert(reduce.no_duplicates()) by {
            lemma_increasing_distinct(reduce);
        }
        let at = coordinates(distinct, env);
        assert(bounded(distinct, size, env)) by {
            lemma_same_members(distinct, labels, size, env);
        }
        lemma_coordinates_within(distinct, size, env);
        assert(total_element(read, total, plain, reduce, at));
        assert(distinct.take(distinct.len() as int) =~= distinct);
        lemma_kept_coordinates(distinct, distinct.len(), other, output, env);
        lemma_gathered(distinct, reduce, size);
        let dims = sizes_of(only, size);
        assert forall|i: int| 0 <= i < dims.len() implies #[trigger] dims[i] >= 0 by {
            let c = distinct[reduce[i] as int];
            assert(reduce[i] < distinct.len());
            assert(distinct.contains(c));
            assert(labels.contains(c));
            let k = choose|k: int| 0 <= k < labels.len() && labels[k] == c;
            assert(size(labels[k]) >= 0);
        }
        lemma_count_range(dims);
        let one = addends(read, plain, reduce, at);
        let other_addends = Seq::new(
            count(dims) as nat,
            |d: int|
                read(
                    copied(
                        Expr::Is(v),
                        coordinates(labels, assigned(env, only, unravel(dims, d))),
                    ),
                ),
        );
        assert forall|d: int| 0 <= d < count(dims) implies #[trigger] one[d] == other_addends[d] by {
            let values = unravel(dims, d);
            lemma_counted(dims, d);
            lemma_replaced_coordinates(distinct, reduce, values, env);
            let there = assigned(env, only, values);
            assert(bounded(labels, size, there)) by {
                lemma_assigned_bounded(labels, only, values, size, env);
            }
            lemma_untangled_element(v, labels, size, there);
        }
        assert(one =~= other_addends);
    }
}

/// An increasing list has no duplicates.
proof fn lemma_increasing_distinct(axes: Seq<usize>)
    requires
        increasing(axes),
    ensures
        axes.no_duplicates(),
{
    assert forall|i: int, j: int| 0 <= i < j < axes.len() implies axes[i] < axes[j] by {
        lemma_increasing_pair(axes, i, j);
    }
}

pub(crate) proof fn lemma_increasing_pair(axes: Seq<usize>, i: int, j: int)
    requires
        increasing(axes),
        0 <= i < j < axes.len(),
    ensures
        axes[i] < axes[j],
    decreases j - i,
{
    assert(axes[j - 1] < axes[j - 1 + 1]);
    if i < j - 1 {
        lemma_increasing_pair(axes, i, j - 1);
    }
}

/// An assignment within the extents of labels is so for the same labels in
/// another order.
proof fn lemma_same_members(
    some: Seq<char>,
    all: Seq<char>,
    size: spec_fn(char) -> i64,
    env: spec_fn(char) -> int,
)
    requires
        bounded(all, size, env),
        forall|c: char| #[trigger] some.contains(c) ==> all.contains(c),
    ensures
        bounded(some, size, env),
{
    assert forall|i: int| 0 <= i < some.len() implies 0 <= env(#[trigger] some[i])
        < size(some[i]) by {
        assert(some.contains(some[i]));
        let k = choose|k: int| 0 <= k < all.len() && all[k] == some[i];
        assert(0 <= env(all[k]) < size(all[k]));
    }
}

/// New coordinates within the extents of their labels keep an assignment within
/// them.
proof fn lemma_assigned_bounded(
    labels: Seq<char>,
    names: Seq<char>,
    values: Seq<int>,
    size: spec_fn(char) -> i64,
    env: spec_fn(char) -> int,
)
    requires
        bounded(labels, size, env),
        within(sizes_of(names, size), values),
    ensures
        bounded(labels, size, assigned(env, names, values)),
{
    let there = assigned(env, names, values);
    assert forall|i: int| 0 <= i < labels.len() implies 0 <= there(#[trigger] labels[i])
        < size(labels[i]) by {
        let c = labels[i];
        assert(0 <= env(labels[i]) < size(labels[i]));
        if names.contains(c) {
            let m = names.index_of(c);
            assert(names[m] == c && 0 <= m < names.len());
            assert(0 <= values[m] < sizes_of(names, size)[m]);
        }
    }
}

/// The labels at the shared positions of both operands are the same.
proof fn lemma_shared_labels(left: Seq<char>, right: Seq<char>, output: Seq<char>, batch: bool)
    requires
        left.len() <= usize::MAX,
        right.len() <= usize::MAX,
    ensures
        labels_at(right, shared_right(left, right, output, batch)) == labels_at(
            left,
            shared_left(left, right, output, batch),
        ),
        forall|k: int|
            0 <= k < shared_right(left, right, output, batch).len() ==> #[trigger] shared_right(
                left,
                right,
                output,
                batch,
            )[k] < right.len(),
    decreases left.len(),
{
    let mine = shared_left(left, right, output, batch);
    let theirs = shared_right(left, right, output, batch);
    if left.len() > 0 {
        let front = left.drop_last();
        let mine_before = shared_left(front, right, output, batch);
        let theirs_before = shared_right(front, right, output, batch);
        lemma_shared_labels(front, right, output, batch);
        lemma_shared_left(front, right, output, batch);
        lemma_index_some(right, 0, left.last());
        let a = labels_at(right, theirs_before);
        let b = labels_at(front, mine_before);
        assert(a.len() == b.len());
        assert forall|k: int| 0 <= k < theirs.len() implies #[trigger] theirs[k] < right.len()
            && right[theirs[k] as int] == left[mine[k] as int] by {
            if k < theirs_before.len() {
                assert(a[k] == b[k]);
                assert(theirs_before[k] < right.len());
                assert(mine_before[k] < front.len());
            }
        }
    }
    assert(labels_at(right, theirs) =~= labels_at(left, mine));
}

/// The labels of an operand that the other lacks are not in it.
proof fn lemma_without_members(labels: Seq<char>, other: Seq<char>)
    ensures
        forall|i: int|
            0 <= i < labels_without(labels, other).len() ==> !other.contains(
                #[trigger] labels_without(labels, other)[i],
            ) && labels.contains(labels_without(labels, other)[i]),
    decreases labels.len(),
{
    if labels.len() > 0 {
        let front = labels.drop_last();
        let rest = labels_without(front, other);
        let all = labels_without(labels, other);
        lemma_without_members(front, other);
        assert forall|i: int| 0 <= i < all.len() implies !other.contains(#[trigger] all[i])
            && labels.contains(all[i]) by {
            if i < rest.len() {
                assert(!other.contains(rest[i]) && front.contains(rest[i]));
                let k = choose|k: int| 0 <= k < front.len() && front[k] == rest[i];
                assert(labels[k] == rest[i]);
            } else {
                assert(labels[labels.len() - 1] == all[i]);
            }
        }
    }
}

/// Coordinates in the order of positions lead back to those of the labels.
proof fn lemma_permuted_coordinates(
    labels: Seq<char>,
    positions: Seq<usize>,
    env: spec_fn(char) -> int,
)
    requires
        is_permutation(positions, labels.len()),
        labels.len() <= usize::MAX,
    ensures
        permuted_index(positions, coordinates(labels_at(labels, positions), env)) == coordinates(
            labels,
            env,
        ),
{
    lemma_permutation_onto(positions);
    let one = permuted_index(positions, coordinates(labels_at(labels, positions), env));
    assert forall|a: int| 0 <= a < labels.len() implies #[trigger] one[a] == env(labels[a]) by {
        assert(positions.contains(a as usize));
        let t = positions.index_of(a as usize);
        assert(positions[t] == a as usize && 0 <= t < positions.len());
    }
    assert(one =~= coordinates(labels, env));
}

/// A product of extents that fits is their product.
proof fn lemma_flat_count(dims: Seq<i64>)
    requires
        flat_extent(dims) is Some,
    ensures
        flat_extent(dims)->Some_0 == count(dims),
    decreases dims.len(),
{
    if dims.len() > 0 {
        lemma_flat_count(dims.drop_last());
    }
}

/// The labels that both operands have and the output lacks, in the order of the
/// left one.
pub open spec fn summed(left: Seq<char>, right: Seq<char>, output: Seq<char>) -> Seq<char> {
    labels_at(left, shared_left(left, right, output, false))
}

/// The assignment of the summed labels at one position of their extents.
pub open spec fn step(
    env: spec_fn(char) -> int,
    names: Seq<char>,
    size: spec_fn(char) -> i64,
    position: int,
) -> spec_fn(char) -> int {
    assigned(env, names, unravel(sizes_of(names, size), position))
}

/// Coordinates of labels that are not assigned anew stay.
proof fn lemma_untouched(
    labels: Seq<char>,
    names: Seq<char>,
    values: Seq<int>,
    env: spec_fn(char) -> int,
)
    requires
        forall|i: int| 0 <= i < labels.len() ==> !names.contains(#[trigger] labels[i]),
    ensures
        coordinates(labels, assigned(env, names, values)) == coordinates(labels, env),
{
    assert(coordinates(labels, assigned(env, names, values)) =~= coordinates(labels, env));
}

/// Distinct labels assigned anew have their new coordinates.
proof fn lemma_assigned_itself(names: Seq<char>, values: Seq<int>, env: spec_fn(char) -> int)
    requires
        names.no_duplicates(),
        values.len() == names.len(),
    ensures
        coordinates(names, assigned(env, names, values)) == values,
{
    assert forall|i: int| 0 <= i < names.len() implies #[trigger] coordinates(
        names,
        assigned(env, names, values),
    )[i] == values[i] by {
        assert(names.contains(names[i]));
        let m = names.index_of(names[i]);
        assert(names[m] == names[i] && 0 <= m < names.len());
    }
    assert(coordinates(names, assigned(env, names, values)) =~= values);
}

/// Labels at distinct positions of a list without duplicates are distinct.
proof fn lemma_labels_distinct(labels: Seq<char>, positions: Seq<usize>)
    requires
        labels.no_duplicates(),
        positions.no_duplicates(),
        forall|k: int| 0 <= k < positions.len() ==> #[trigger] positions[k] < labels.len(),
    ensures
        labels_at(labels, positions).no_duplicates(),
{
    let names = labels_at(labels, positions);
    assert forall|i: int, j: int| 0 <= i < names.len() && 0 <= j < names.len() && i != j implies
        names[i] != names[j] by {
        assert(positions[i] < labels.len() && positions[j] < labels.len());
        assert(positions[i] != positions[j]);
    }
}

/// The labels that a contraction arranges, and their positions.
proof fn lemma_arranged(
    left: Seq<char>,
    right: Seq<char>,
    output: Seq<char>,
)
    requires
        left.no_duplicates(),
        right.no_duplicates(),
        left.len() + right.len() < usize::MAX,
    ensures
        ({
            let used = shared_left(left, right, output, false) + shared_left(
                left,
                right,
                output,
                true,
            );
            let used_right = shared_right(left, right, output, false) + shared_right(
                left,
                right,
                output,
                true,
            );
            &&& labels_at(left, free_axes(left.len(), used)) == labels_without(left, right)
            &&& labels_at(right, free_axes(right.len(), used_right)) == labels_without(right, left)
            &&& labels_at(left, shared_left(left, right, output, true)) == batch_labels(
                left,
                right,
                output,
            )
            &&& labels_at(right, shared_right(left, right, output, true)) == batch_labels(
                left,
                right,
                output,
            )
            &&& labels_at(right, shared_right(left, right, output, false)) == summed(
                left,
                right,
                output,
            )
        }),
{
    let used = shared_left(left, right, output, false) + shared_left(left, right, output, true);
    let used_right = shared_right(left, right, output, false) + shared_right(
        left,
        right,
        output,
        true,
    );
    lemma_shared_left(left, right, output, false);
    lemma_shared_left(left, right, output, true);
    lemma_shared_right(left, right, output, false);
    lemma_shared_right(left, right, output, true);
    assert forall|i: int|
        #![trigger left[i]]
        0 <= i < left.len() implies (used.contains(i as usize) <==> right.contains(left[i])) by {
        lemma_either(
            shared_left(left, right, output, false),
            shared_left(left, right, output, true),
            i as usize,
        );
    }
    assert forall|j: int|
        #![trigger right[j]]
        0 <= j < right.len() implies (used_right.contains(j as usize) <==> left.contains(
        right[j],
    )) by {
        lemma_either(
            shared_right(left, right, output, false),
            shared_right(left, right, output, true),
            j as usize,
        );
    }
    lemma_free_labels(left, used, right, left.len());
    lemma_free_labels(right, used_right, left, right.len());
    assert(left.take(left.len() as int) =~= left);
    assert(right.take(right.len() as int) =~= right);
    lemma_shared_labels(left, right, output, false);
    lemma_shared_labels(left, right, output, true);
}

/// An assignment within the extents of labels is so for some of them.
proof fn lemma_bounded_at(
    labels: Seq<char>,
    positions: Seq<usize>,
    size: spec_fn(char) -> i64,
    env: spec_fn(char) -> int,
)
    requires
        bounded(labels, size, env),
        forall|k: int| 0 <= k < positions.len() ==> #[trigger] positions[k] < labels.len(),
    ensures
        bounded(labels_at(labels, positions), size, env),
{
    let names = labels_at(labels, positions);
    assert forall|i: int| 0 <= i < names.len() implies 0 <= env(#[trigger] names[i])
        < size(names[i]) by {
        assert(positions[i] < labels.len());
        assert(0 <= env(labels[positions[i] as int]) < size(labels[positions[i] as int]));
    }
}

/// Neither the shared labels of the output nor those of one operand alone are
/// summed over with the other.
proof fn lemma_not_summed(left: Seq<char>, right: Seq<char>, output: Seq<char>)
    requires
        left.len() <= usize::MAX,
        right.len() <= usize::MAX,
    ensures
        forall|i: int|
            0 <= i < batch_labels(left, right, output).len() ==> !summed(
                left,
                right,
                output,
            ).contains(#[trigger] batch_labels(left, right, output)[i]),
        forall|i: int|
            0 <= i < labels_without(left, right).len() ==> !summed(left, right, output).contains(
                #[trigger] labels_without(left, right)[i],
            ),
        forall|i: int|
            0 <= i < labels_without(right, left).len() ==> !summed(left, right, output).contains(
                #[trigger] labels_without(right, left)[i],
            ),
{
    let positions = shared_left(left, right, output, false);
    let batch = shared_left(left, right, output, true);
    let names = summed(left, right, output);
    lemma_shared_left(left, right, output, false);
    lemma_shared_left(left, right, output, true);
    lemma_without_members(left, right);
    lemma_without_members(right, left);
    assert forall|c: char| names.contains(c) implies right.contains(c) && left.contains(c)
        && !output.contains(c) by {
        let k = choose|k: int| 0 <= k < names.len() && names[k] == c;
        assert(positions[k] < left.len());
        assert(positions.contains(positions[k]));
        assert(left[positions[k] as int] == c);
    }
    let shared = batch_labels(left, right, output);
    assert forall|i: int| 0 <= i < shared.len() implies !names.contains(#[trigger] shared[i]) by {
        assert(labels_at(left, batch)[i] == shared[i]);
        assert(batch[i] < left.len());
        assert(batch.contains(batch[i]));
        assert(left[batch[i] as int] == shared[i]);
    }
}

/// The contraction of prepared operands pairs their elements over the summed
/// labels.
proof fn lemma_contracted_element<A>(
    read: spec_fn(Element) -> A,
    dot: spec_fn(Seq<(A, A)>) -> A,
    x: Value,
    left: Seq<char>,
    y: Value,
    right: Seq<char>,
    output: Seq<char>,
    size: spec_fn(char) -> i64,
    env: spec_fn(char) -> int,
)
    requires
        reads_matrix_products(read, dot),
        contracted((Expr::Is(x), left), (Expr::Is(y), right), output) is Is,
        x.dims == sizes_of(left, size),
        y.dims == sizes_of(right, size),
        left.no_duplicates(),
        right.no_duplicates(),
        left.len() + right.len() < usize::MAX - 2,
        volume(x.dims) is Some,
        volume(y.dims) is Some,
        bounded(left, size, env),
        bounded(right, size, env),
    ensures
        read(
            copied(
                contracted((Expr::Is(x), left), (Expr::Is(y), right), output),
                coordinates(output, env),
            ),
        ) == dot(
            Seq::new(
                count(sizes_of(summed(left, right, output), size)) as nat,
                |k: int|
                    (
                        read(
                            copied(
                                Expr::Is(x),
                                coordinates(
                                    left,
                                    step(env, summed(left, right, output), size, k),
                                ),
                            ),
                        ),
                        read(
                            copied(
                                Expr::Is(y),
                                coordinates(
                                    right,
                                    step(env, summed(left, right, output), size, k),
                                ),
                            ),
                        ),
                    ),
            ),
        ),
{
    broadcast use group_extents;

    let names = summed(left, right, output);
    let sum_at = shared_left(left, right, output, false);
    let batch = shared_left(left, right, output, true);
    let sum_right = shared_right(left, right, output, false);
    let batch_right = shared_right(left, right, output, true);
    let contract = (sum_at, sum_right);
    let pairs = (batch, batch_right);
    let product = Expr::Is(x).dot_general(Expr::Is(y), sum_at, sum_right, batch, batch_right);
    let result = result_labels(left, right, output);
    let order = output_order(result, output)->Some_0;
    assert(product is Is && product.transpose(order) is Is);
    lemma_contraction_built(x, y, contract, pairs);
    lemma_arranged(left, right, output);
    lemma_not_summed(left, right, output);
    lemma_shared_left(left, right, output, false);
    lemma_shared_left(left, right, output, true);
    lemma_shared_labels(left, right, output, false);
    lemma_shared_labels(left, right, output, true);
    let left_free = free_axes(left.len(), sum_at + batch);
    let right_free = free_axes(right.len(), sum_right + batch_right);
    lemma_free_bounded(left.len(), sum_at + batch);
    lemma_free_bounded(right.len(), sum_right + batch_right);
    let lp = batch + left_free + sum_at;
    let rp = batch_right + sum_right + right_free;
    assert(is_permutation(lp, left.len()) && is_permutation(rp, right.len()));
    let shared = batch_labels(left, right, output);
    let mine = labels_without(left, right);
    let theirs = labels_without(right, left);
    assert(labels_at(left, lp) =~= shared + mine + names);
    assert(labels_at(right, rp) =~= shared + names + theirs);
    let at = coordinates(shared, env);
    let i = coordinates(mine, env);
    let j = coordinates(theirs, env);
    lemma_gathered(left, batch, size);
    lemma_gathered(left, left_free, size);
    lemma_gathered(left, sum_at, size);
    lemma_gathered(right, right_free, size);
    lemma_bounded_at(left, batch, size, env);
    lemma_bounded_at(left, left_free, size, env);
    lemma_bounded_at(right, right_free, size, env);
    lemma_coordinates_within(shared, size, env);
    lemma_coordinates_within(mine, size, env);
    lemma_coordinates_within(theirs, size, env);
    contractions_pair_the_contracted_axes(read, dot, x, y, contract, pairs, at, i, j);
    let whole = coordinates(result, env);
    assert(whole =~= at + i + j);
    lemma_result_bounded(left, right, output);
    lemma_order(result, output);
    assert(product->Is_0.dims.len() == result.len());
    transposing_permutes_the_index(product, order, whole);
    assert(Seq::new(whole.len(), |k: int| whole[order[k] as int]) =~= coordinates(output, env));
    let inner = sizes_of(names, size);
    lemma_flat_count(inner);
    let one = contraction_factors(read, x, y, contract, pairs, at, i, j);
    let other = Seq::new(
        count(inner) as nat,
        |k: int|
            (
                read(copied(Expr::Is(x), coordinates(left, step(env, names, size, k)))),
                read(copied(Expr::Is(y), coordinates(right, step(env, names, size, k)))),
            ),
    );
    assert(names.no_duplicates()) by {
        assert forall|a: int, b: int| 0 <= a < sum_at.len() && 0 <= b < sum_at.len() && a
            != b implies sum_at[a] != sum_at[b] by {
            let n = batch.len() + left_free.len();
            assert(lp[n + a] == sum_at[a] && lp[n + b] == sum_at[b]);
        }
        lemma_labels_distinct(left, sum_at);
    }
    assert forall|k: int| 0 <= k < count(inner) implies #[trigger] one[k] == other[k] by {
        let values = unravel(inner, k);
        let there = step(env, names, size, k);
        lemma_counted(inner, k);
        lemma_untouched(shared, names, values, env);
        lemma_untouched(mine, names, values, env);
        lemma_untouched(theirs, names, values, env);
        lemma_assigned_itself(names, values, env);
        assert(coordinates(shared + mine + names, there) =~= at + i + values);
        assert(coordinates(shared + names + theirs, there) =~= at + values + j);
        lemma_permuted_coordinates(left, lp, there);
        lemma_permuted_coordinates(right, rp, there);
    }
    assert(one =~= other);
}

/// Diagonals have representable element counts.
proof fn lemma_untangled_volume(v: Value, labels: Seq<char>)
    requires
        untangled(Expr::Is(v), labels).0 is Is,
        volume(v.dims) is Some,
    ensures
        volume(untangled(Expr::Is(v), labels).0->Is_0.dims) is Some,
    decreases labels.len(),
{
    lemma_repeated(labels, 0);
    if let Some((first, second)) = repeated_from(labels, 0) {
        let merged = merged_labels(labels, first, second);
        let next = Expr::Is(v).diagonal(0, first as usize, second as usize);
        if next is Fails {
            lemma_untangled_failed(next->Fails_0, merged);
        }
        assert(volume(next->Is_0.dims) is Some) by {
            reveal(Expr::diagonal);
            reveal(applied);
        }
        lemma_untangled_volume(next->Is_0, merged);
    }
}

/// A prepared operand has a representable element count, and no labels but its
/// own.
proof fn lemma_prepared_shape(
    v: Value,
    names: (Seq<char>, Seq<char>, Seq<char>),
    size: spec_fn(char) -> i64,
)
    requires
        prepared(Expr::Is(v), names.0, names.1, names.2).0 is Is,
        volume(v.dims) is Some,
        v.dims == sizes_of(names.0, size),
        all_sized(names.0, size),
        names.0.len() <= usize::MAX,
    ensures
        volume(prepared(Expr::Is(v), names.0, names.1, names.2).0->Is_0.dims) is Some,
        forall|c: char| #[trigger]
            prepared(Expr::Is(v), names.0, names.1, names.2).1.contains(c) ==> names.0.contains(c),
{
    reveal(prepared);
    let (plain, distinct) = untangled(Expr::Is(v), names.0);
    assert(plain is Is) by {
        broadcast use group_extents;

    }
    lemma_untangled(v, names.0, size);
    lemma_untangled_volume(v, names.0);
    lemma_retained_members(distinct, names.1, names.2);
    let reduce = dangling(distinct, names.1, names.2);
    if reduce.len() > 0 {
        reveal(Expr::reduce);
        reveal(applied);
    }
}

/// The extents of labels, as the axes that carry them give them.
pub open spec fn extents(labels: Seq<char>, dims: Seq<i64>) -> spec_fn(char) -> i64 {
    |c: char| extent_of(labels, dims, c)
}

/// An element of an einsum, at the coordinates that an assignment gives to the
/// output labels: products of what the operands contribute, summed over the
/// labels that both have and the output lacks. An operand contributes its
/// element where the assignment puts its labels, a label that it repeats
/// selecting the diagonal, or the total over the labels that only it has. Where
/// a summed label has no coordinates, the element is zero.
pub proof fn einsums_sum_products_over_the_missing_labels<A>(
    read: spec_fn(Element) -> A,
    dot: spec_fn(Seq<(A, A)>) -> A,
    total: spec_fn(Seq<A>) -> A,
    x: Value,
    y: Value,
    equation: Seq<char>,
    env: spec_fn(char) -> int,
)
    requires
        reads_matrix_products(read, dot),
        reads_totals(read, total),
        Expr::Is(x).einsum(equation, Expr::Is(y)) is Is,
        volume(x.dims) is Some,
        volume(y.dims) is Some,
        x.dims.len() + y.dims.len() < usize::MAX - 2,
        ({
            let names = parsed(equation)->Ok_0;
            let all = names.left + names.right;
            let dims = x.dims + y.dims;
            bounded(
                if sums_nothing(all, dims, names.output) {
                    names.output
                } else {
                    all
                },
                extents(all, dims),
                env,
            )
        }),
    ensures
        ({
            let names = parsed(equation)->Ok_0;
            let all = names.left + names.right;
            let dims = x.dims + y.dims;
            let size = extents(all, dims);
            let left = prepared(Expr::Is(x), names.left, names.right, names.output).1;
            let right = prepared(Expr::Is(y), names.right, left, names.output).1;
            let over = summed(left, right, names.output);
            let element = copied(
                Expr::Is(x).einsum(equation, Expr::Is(y)),
                coordinates(names.output, env),
            );
            if sums_nothing(all, dims, names.output) {
                element == copied(scalar(x.graph, Scalar::Bits(F32_ZERO)), Seq::empty())
            } else {
                read(element) == dot(
                    Seq::new(
                        count(sizes_of(over, size)) as nat,
                        |k: int|
                            (
                                contribution(
                                    read,
                                    total,
                                    x,
                                    (names.left, names.right, names.output),
                                    size,
                                    step(env, over, size, k),
                                ),
                                contribution(
                                    read,
                                    total,
                                    y,
                                    (names.right, left, names.output),
                                    size,
                                    step(env, over, size, k),
                                ),
                            ),
                    ),
                )
            }
        }),
{
    broadcast use group_extents;

    let names = parsed(equation)->Ok_0;
    let all = names.left + names.right;
    let dims = x.dims + y.dims;
    let output = names.output;
    let size = extents(all, dims);
    if sums_nothing(all, dims, output) {
        let zero = scalar(x.graph, Scalar::Bits(F32_ZERO));
        let shape = output_dims(all, dims, output);
        let index = coordinates(output, env);
        lemma_coordinates_within(output, size, env);
        assert(shape =~= sizes_of(output, size));
        assert(output.len() <= usize::MAX) by {
            lemma_output_bounded(all, output);
        }
        assert(zero is Is && zero->Is_0.dims.len() == 0) by {
            reveal(applied);
        }
        broadcasting_repeats(zero, shape, index);
        let source = Seq::new(
            zero->Is_0.dims.len(),
            |i: int|
                if zero->Is_0.dims[i] == 1 {
                    0
                } else {
                    index[i + shape.len() - zero->Is_0.dims.len()]
                },
        );
        assert(source =~= Seq::empty());
    } else {
        lemma_operand_sizes(x.dims, names.left, y.dims, names.right);
        let left = prepared(Expr::Is(x), names.left, names.right, output);
        let right = prepared(Expr::Is(y), names.right, left.1, output);
        assert(left.0 is Is && right.0 is Is);
        let (xs, ys) = ((names.left, names.right, output), (names.right, left.1, output));
        lemma_prepared(x, names.left, names.right, output, size);
        lemma_prepared(y, names.right, left.1, output, size);
        lemma_prepared_shape(x, xs, size);
        lemma_prepared_shape(y, ys, size);
        assert(bounded(names.left, size, env) && bounded(names.right, size, env)) by {
            assert forall|c: char| #[trigger] names.left.contains(c) implies all.contains(c) by {
                let k = choose|k: int| 0 <= k < names.left.len() && names.left[k] == c;
                assert(all[k] == c);
            }
            assert forall|c: char| #[trigger] names.right.contains(c) implies all.contains(c) by {
                let k = choose|k: int| 0 <= k < names.right.len() && names.right[k] == c;
                assert(all[names.left.len() + k] == c);
            }
            lemma_same_members(names.left, all, size, env);
            lemma_same_members(names.right, all, size, env);
        }
        lemma_same_members(left.1, names.left, size, env);
        lemma_same_members(right.1, names.right, size, env);
        lemma_contracted_element(
            read,
            dot,
            left.0->Is_0,
            left.1,
            right.0->Is_0,
            right.1,
            output,
            size,
            env,
        );
        let over = summed(left.1, right.1, output);
        let inner = sizes_of(over, size);
        lemma_shared_left(left.1, right.1, output, false);
        assert forall|i: int| 0 <= i < inner.len() implies #[trigger] inner[i] >= 0 by {
            let a = shared_left(left.1, right.1, output, false)[i];
            assert(a < left.1.len());
            assert(0 <= env(left.1[a as int]) < size(left.1[a as int]));
        }
        lemma_count_range(inner);
        let one = Seq::new(
            count(inner) as nat,
            |k: int|
                (
                    read(copied(left.0, coordinates(left.1, step(env, over, size, k)))),
                    read(copied(right.0, coordinates(right.1, step(env, over, size, k)))),
                ),
        );
        let other = Seq::new(
            count(inner) as nat,
            |k: int|
                (
                    contribution(read, total, x, xs, size, step(env, over, size, k)),
                    contribution(read, total, y, ys, size, step(env, over, size, k)),
                ),
        );
        assert forall|k: int| 0 <= k < count(inner) implies #[trigger] one[k] == other[k] by {
            let there = step(env, over, size, k);
            lemma_counted(inner, k);
            lemma_assigned_bounded(names.left, over, unravel(inner, k), size, env);
            lemma_assigned_bounded(names.right, over, unravel(inner, k), size, env);
            lemma_prepared_element(read, total, x, xs, size, there);
            lemma_prepared_element(read, total, y, ys, size, there);
        }
        assert(one =~= other);
    }
}

/// Distinct labels taken from others are no more than those.
proof fn lemma_output_bounded(all: Seq<char>, output: Seq<char>)
    requires
        output_valid(all, output),
    ensures
        output.len() <= all.len(),
{
    output.unique_seq_to_set();
    all.lemma_cardinality_of_set();
    vstd::seq_lib::seq_to_set_is_finite(all);
    assert(output.to_set().subset_of(all.to_set())) by {
        assert forall|c: char| output.to_set().contains(c) implies all.to_set().contains(c) by {
            let k = choose|k: int| 0 <= k < output.len() && output[k] == c;
            assert(all.contains(output[k]));
        }
    }
    vstd::set_lib::lemma_len_subset(output.to_set(), all.to_set());
}

/// The labels of operands stand for their extents.
proof fn lemma_operand_sizes(x: Seq<i64>, left: Seq<char>, y: Seq<i64>, right: Seq<char>)
    requires
        volume(x) is Some,
        volume(y) is Some,
        left.len() == x.len(),
        right.len() == y.len(),
        consistent(left + right, x + y),
    ensures
        x == sizes_of(left, extents(left + right, x + y)),
        y == sizes_of(right, extents(left + right, x + y)),
        all_sized(left, extents(left + right, x + y)),
        all_sized(right, extents(left + right, x + y)),
{
    let all = left + right;
    let dims = x + y;
    let size = extents(all, dims);
    lemma_volume_nonnegative(x);
    lemma_volume_nonnegative(y);
    assert forall|i: int| 0 <= i < all.len() implies #[trigger] size(all[i]) == dims[i] && dims[i]
        >= 0 by {
        assert(all.contains(all[i]));
        let k = all.index_of(all[i]);
        assert(all[k] == all[i]);
    }
    assert forall|i: int| 0 <= i < left.len() implies size(#[trigger] left[i]) == x[i] && x[i]
        >= 0 by {
        assert(all[i] == left[i]);
        assert(size(all[i]) == dims[i]);
    }
    assert forall|i: int| 0 <= i < right.len() implies size(#[trigger] right[i]) == y[i] && y[i]
        >= 0 by {
        assert(all[left.len() + i] == right[i]);
        assert(size(all[left.len() + i]) == dims[left.len() + i]);
    }
    assert(x =~= sizes_of(left, size));
    assert(y =~= sizes_of(right, size));
}

} // verus!





