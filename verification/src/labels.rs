//! The extents of an einsum: labels carry them from the operands to the result.
use crate::contraction::{diagonal_length, free_axes, with_last};
use crate::einsum::{
    batch_labels, contracted, dangling, extent_of, index_from, labels_without, merged_labels,
    output_dims, output_order, parsed, prepared, repeated_from, result_labels, retained,
    shared_left, shared_right, untangled,
};
use crate::facts::{group_extents, reduced_dims};
use crate::graph::{applied, Expr, Value};
use crate::indexing::slices_of;
use crate::shape::{gathered, kept, span};
use crate::sound::{slice_dims, slice_extent};
use vstd::prelude::*;

verus! {

/// The extents that labels stand for.
pub open spec fn sizes_of(labels: Seq<char>, size: spec_fn(char) -> i64) -> Seq<i64> {
    Seq::new(labels.len(), |i: int| size(labels[i]))
}

/// The labels at some positions.
pub open spec fn labels_at(labels: Seq<char>, positions: Seq<usize>) -> Seq<char> {
    Seq::new(positions.len(), |k: int| labels[positions[k] as int])
}

/// Every label stands for an extent.
pub open spec fn all_sized(labels: Seq<char>, size: spec_fn(char) -> i64) -> bool {
    forall|i: int| 0 <= i < labels.len() ==> size(#[trigger] labels[i]) >= 0
}

/// A position that was found holds the label.
pub(crate) proof fn lemma_index_some(labels: Seq<char>, start: nat, label: char)
    ensures
        index_from(labels, start, label) matches Some(k) ==> start <= k < labels.len()
            && labels[k as int] == label,
        index_from(labels, start, label) is None ==> forall|i: int|
            start <= i < labels.len() ==> labels[i] != label,
    decreases labels.len() - start,
{
    if start < labels.len() {
        lemma_index_some(labels, start + 1, label);
    }
}

/// The repeated positions hold one label; without any, all labels differ.
pub(crate) proof fn lemma_repeated(labels: Seq<char>, start: nat)
    ensures
        repeated_from(labels, start) matches Some((a, b)) ==> start <= a < b < labels.len()
            && labels[a as int] == labels[b as int],
        repeated_from(labels, start) is None ==> forall|i: int, j: int|
            start <= i < j < labels.len() ==> labels[i] != labels[j],
    decreases labels.len() - start,
{
    if start < labels.len() {
        lemma_index_some(labels, start + 1, labels[start as int]);
        lemma_repeated(labels, start + 1);
    }
}

/// The axes beside a pair of them.
pub(crate) proof fn lemma_free_pair(rank: nat, first: usize, second: usize)
    requires
        first < second,
        rank <= usize::MAX,
    ensures
        free_axes(rank, seq![first, second]) == if rank <= first {
            span(0, rank)
        } else if rank <= second {
            span(0, rank).remove(first as int)
        } else {
            span(0, rank).remove(second as int).remove(first as int)
        },
    decreases rank,
{
    let pair = seq![first, second];
    assert(pair[0] == first && pair[1] == second);
    if rank == 0 {
        assert(free_axes(0, pair) =~= span(0, 0));
    } else {
        let last = (rank - 1) as usize;
        lemma_free_pair((rank - 1) as nat, first, second);
        assert(pair.contains(last) <==> last == first || last == second);
        let whole = if rank <= first {
            span(0, rank)
        } else if rank <= second {
            span(0, rank).remove(first as int)
        } else {
            span(0, rank).remove(second as int).remove(first as int)
        };
        assert(free_axes(rank, pair) =~= whole);
    }
}

/// The extents of the main diagonal of two equal axes.
pub(crate) proof fn lemma_diagonal_extents(v: Value, first: usize, second: usize)
    requires
        Expr::Is(v).diagonal(0, first, second) is Is,
        v.dims[first as int] == v.dims[second as int],
        v.dims[first as int] >= 0,
    ensures
        first < v.dims.len(),
        second < v.dims.len(),
        Expr::Is(v).diagonal(0, first, second)->Is_0.dims == gathered(
            v.dims,
            free_axes(v.dims.len(), seq![first, second]),
        ).push(v.dims[first as int]),
{
    reveal(Expr::diagonal);
    let dims = v.dims;
    let n = dims[first as int];
    let others = free_axes(dims.len(), seq![first, second]);
    let rest = gathered(dims, others);
    let shape = rest.push((n * n) as i64);
    let length = diagonal_length(0, n, n);
    assert(length == n);
    let start = 0int;
    let stride = if length <= 1 {
        1
    } else {
        n + 1
    };
    let limit = if length == 0 {
        0
    } else {
        start + (length - 1) * stride + 1
    };
    let starts = with_last(shape.len(), 0, start as i64);
    let limits = shape.update(shape.len() - 1, limit as i64);
    let strides = with_last(shape.len(), 1, stride as i64);
    let flat = Expr::Is(v).transpose(others.push(first).push(second)).reshape(shape);
    let result = flat.slice(starts, limits, strides);
    assert(0 * n == 0);
    assert(result == Expr::Is(v).diagonal(0, first, second));
    let axes = slices_of(starts, limits, strides);
    assert(result->Is_0.dims == slice_dims(axes)) by {
        reveal(applied);
    }
    assert(0 <= limit <= i64::MAX && 0 < stride <= i64::MAX) by {
        if n > 1 {
            assert((n - 1) * (n + 1) + 1 == n * n) by (nonlinear_arith);
            assert(n + 1 <= n * n) by (nonlinear_arith)
                requires
                    n >= 2,
            ;
        }
    }
    assert forall|i: int| 0 <= i < shape.len() implies #[trigger] slice_dims(axes)[i] == rest.push(
        n,
    )[i] by {
        assert(slice_dims(axes)[i] == slice_extent(axes[i]) as i64);
        if i < rest.len() {
            assert(axes[i].stride == 1 && axes[i].start == 0 && axes[i].limit == shape[i]);
            assert(slice_extent(axes[i]) == (shape[i] - 0 + 1 - 1) / 1);
            assert(slice_extent(axes[i]) == shape[i] && rest.push(n)[i] == shape[i]);
        } else if n >= 1 {
            assert(axes[i].start == 0 && axes[i].limit == limit && axes[i].stride == stride);
            crate::diagonals::lemma_interval(start, stride, length);
            assert(slice_extent(axes[i]) == length);
            assert(rest.push(n)[i] == n);
        } else {
            assert(axes[i].start == 0 && axes[i].limit == 0 && axes[i].stride == 1);
            assert(slice_extent(axes[i]) == (0int - 0 + 1 - 1) / 1);
        }
    }
    assert(slice_dims(axes) =~= rest.push(n));
}

/// Taking diagonals leaves distinct labels, the same ones, with their extents.
pub(crate) proof fn lemma_untangled(v: Value, labels: Seq<char>, size: spec_fn(char) -> i64)
    requires
        untangled(Expr::Is(v), labels).0 is Is,
        v.dims == sizes_of(labels, size),
        all_sized(labels, size),
        labels.len() <= usize::MAX,
    ensures
        untangled(Expr::Is(v), labels).0->Is_0.dims == sizes_of(
            untangled(Expr::Is(v), labels).1,
            size,
        ),
        untangled(Expr::Is(v), labels).1.no_duplicates(),
        untangled(Expr::Is(v), labels).1.len() <= labels.len(),
        forall|c: char|
            #![trigger untangled(Expr::Is(v), labels).1.contains(c)]
            untangled(Expr::Is(v), labels).1.contains(c) <==> labels.contains(c),
    decreases labels.len(),
{
    lemma_repeated(labels, 0);
    if let Some((first, second)) = repeated_from(labels, 0) {
        let merged = merged_labels(labels, first, second);
        let next = Expr::Is(v).diagonal(0, first as usize, second as usize);
        if next is Fails {
            crate::einsum::lemma_untangled_failed(next->Fails_0, merged);
        }
        let y = next->Is_0;
        lemma_free_pair(labels.len(), first as usize, second as usize);
        assert(size(labels[first as int]) >= 0);
        lemma_diagonal_extents(v, first as usize, second as usize);
        assert(y.dims =~= sizes_of(merged, size));
        assert forall|c: char| merged.contains(c) <==> labels.contains(c) by {
            lemma_merged_members(labels, first, second, c);
        }
        assert forall|i: int| 0 <= i < merged.len() implies size(#[trigger] merged[i]) >= 0 by {
            assert(merged.contains(merged[i]));
            assert(labels.contains(merged[i]));
            let k = choose|k: int| 0 <= k < labels.len() && labels[k] == merged[i];
            assert(size(labels[k]) >= 0);
        }
        lemma_untangled(y, merged, size);
        assert forall|c: char|
            #![trigger untangled(Expr::Is(v), labels).1.contains(c)]
            untangled(Expr::Is(v), labels).1.contains(c) <==> labels.contains(c) by {
            assert(untangled(Expr::Is(y), merged).1.contains(c) <==> merged.contains(c));
        }
    }
}

/// Merging two positions of one label keeps the set of labels.
pub(crate) proof fn lemma_merged_members(labels: Seq<char>, first: nat, second: nat, c: char)
    requires
        first < second < labels.len(),
        labels[first as int] == labels[second as int],
    ensures
        merged_labels(labels, first, second).contains(c) <==> labels.contains(c),
{
    let merged = merged_labels(labels, first, second);
    if merged.contains(c) {
        let k = choose|k: int| 0 <= k < merged.len() && merged[k] == c;
        if k == merged.len() - 1 {
            assert(labels[first as int] == c);
        } else if k < first {
            assert(labels[k] == c);
        } else if k + 1 < second {
            assert(labels[k + 1] == c);
        } else {
            assert(labels[k + 2] == c);
        }
    }
    if labels.contains(c) {
        let k = choose|k: int| 0 <= k < labels.len() && labels[k] == c;
        if k == first || k == second {
            assert(merged[merged.len() - 1] == c);
        } else if k < first {
            assert(merged[k] == c);
        } else if k < second {
            assert(merged[k - 1] == c);
        } else {
            assert(merged[k - 2] == c);
        }
    }
}

/// The dangling positions are those whose label is needed nowhere else.
pub(crate) proof fn lemma_dangling(labels: Seq<char>, other: Seq<char>, output: Seq<char>)
    requires
        labels.len() <= usize::MAX,
    ensures
        forall|i: int|
            #![trigger labels[i]]
            0 <= i < labels.len() ==> (dangling(labels, other, output).contains(i as usize) <==> !(
            other.contains(labels[i]) || output.contains(labels[i]))),
        forall|a: usize| #[trigger]
            dangling(labels, other, output).contains(a) ==> a < labels.len(),
    decreases labels.len(),
{
    if labels.len() > 0 {
        let front = labels.drop_last();
        let last = (labels.len() - 1) as usize;
        let rest = dangling(front, other, output);
        let all = dangling(labels, other, output);
        lemma_dangling(front, other, output);
        assert forall|a: usize| #[trigger] all.contains(a) <==> rest.contains(a) || (a == last && !(
        other.contains(labels.last()) || output.contains(labels.last()))) by {
            if all.len() > rest.len() {
                assert(all[rest.len() as int] == last);
                if rest.contains(a) {
                    let k = choose|k: int| 0 <= k < rest.len() && rest[k] == a;
                    assert(all[k] == a);
                }
                if all.contains(a) && a != last {
                    let k = choose|k: int| 0 <= k < all.len() && all[k] == a;
                    assert(rest[k] == a);
                }
            }
        }
        assert forall|i: int|
            #![trigger labels[i]]
            0 <= i < labels.len() implies (all.contains(i as usize) <==> !(other.contains(
            labels[i],
        ) || output.contains(labels[i]))) by {
            if i < front.len() {
                assert(front[i] == labels[i]);
            } else {
                assert(!rest.contains(last));
            }
        }
    }
}

/// Keeping the axes that do not dangle keeps the extents of retained labels.
proof fn lemma_retained(
    labels: Seq<char>,
    count: nat,
    other: Seq<char>,
    output: Seq<char>,
    size: spec_fn(char) -> i64,
)
    requires
        count <= labels.len() <= usize::MAX,
    ensures
        kept(sizes_of(labels.take(count as int), size), dangling(labels, other, output))
            == sizes_of(retained(labels.take(count as int), other, output), size),
    decreases count,
{
    let part = labels.take(count as int);
    if count == 0 {
        assert(sizes_of(retained(part, other, output), size) =~= Seq::empty());
    } else {
        let front = labels.take(count - 1);
        assert(part.drop_last() =~= front);
        assert(sizes_of(part, size).drop_last() =~= sizes_of(front, size));
        lemma_retained(labels, (count - 1) as nat, other, output, size);
        lemma_dangling(labels, other, output);
        assert(labels[count - 1] == part.last());
        assert(sizes_of(retained(part, other, output), size) =~= kept(
            sizes_of(part, size),
            dangling(labels, other, output),
        ));
    }
}

/// Retained labels are labels, in their order, without repetition.
pub(crate) proof fn lemma_retained_members(labels: Seq<char>, other: Seq<char>, output: Seq<char>)
    requires
        labels.no_duplicates(),
    ensures
        retained(labels, other, output).no_duplicates(),
        retained(labels, other, output).len() <= labels.len(),
        forall|c: char| #[trigger]
            retained(labels, other, output).contains(c) ==> labels.contains(c),
    decreases labels.len(),
{
    if labels.len() > 0 {
        let front = labels.drop_last();
        let rest = retained(front, other, output);
        let all = retained(labels, other, output);
        lemma_retained_members(front, other, output);
        assert forall|c: char| #[trigger] all.contains(c) implies labels.contains(c) by {
            let k = choose|k: int| 0 <= k < all.len() && all[k] == c;
            if k < rest.len() {
                assert(rest.contains(c));
                let j = choose|j: int| 0 <= j < front.len() && front[j] == c;
                assert(labels[j] == c);
            } else {
                assert(labels[labels.len() - 1] == c);
            }
        }
        if all.len() > rest.len() {
            assert forall|k: int| 0 <= k < rest.len() implies #[trigger] rest[k] != labels.last() by {
                assert(rest.contains(rest[k]));
                let j = choose|j: int| 0 <= j < front.len() && front[j] == rest[k];
                assert(labels[j] != labels[labels.len() - 1]);
            }
        }
    }
}

/// A prepared operand has distinct labels with their extents.
pub(crate) proof fn lemma_prepared(
    v: Value,
    labels: Seq<char>,
    other: Seq<char>,
    output: Seq<char>,
    size: spec_fn(char) -> i64,
)
    requires
        prepared(Expr::Is(v), labels, other, output).0 is Is,
        v.dims == sizes_of(labels, size),
        all_sized(labels, size),
        labels.len() <= usize::MAX,
    ensures
        prepared(Expr::Is(v), labels, other, output).0->Is_0.dims == sizes_of(
            prepared(Expr::Is(v), labels, other, output).1,
            size,
        ),
        prepared(Expr::Is(v), labels, other, output).1.no_duplicates(),
        prepared(Expr::Is(v), labels, other, output).1.len() <= labels.len(),
{
    broadcast use group_extents;

    reveal(prepared);
    let (plain, distinct) = untangled(Expr::Is(v), labels);
    assert(plain is Is);
    lemma_untangled(v, labels, size);
    let reduce = dangling(distinct, other, output);
    if reduce.len() > 0 {
        assert(distinct.take(distinct.len() as int) =~= distinct);
        lemma_retained(distinct, distinct.len(), other, output, size);
        lemma_retained_members(distinct, other, output);
        assert(reduced_dims(plain->Is_0.dims, reduce, false) == kept(plain->Is_0.dims, reduce));
    }
}

/// The labels at the shared positions of the left operand.
pub(crate) proof fn lemma_shared_left(left: Seq<char>, right: Seq<char>, output: Seq<char>, batch: bool)
    requires
        left.len() <= usize::MAX,
    ensures
        forall|i: int|
            #![trigger left[i]]
            0 <= i < left.len() ==> (shared_left(left, right, output, batch).contains(i as usize)
                <==> right.contains(left[i]) && output.contains(left[i]) == batch),
        forall|k: int|
            0 <= k < shared_left(left, right, output, batch).len() ==> #[trigger] shared_left(
                left,
                right,
                output,
                batch,
            )[k] < left.len(),
        batch ==> labels_at(left, shared_left(left, right, output, true)) == batch_labels(
            left,
            right,
            output,
        ),
    decreases left.len(),
{
    let all = shared_left(left, right, output, batch);
    if left.len() == 0 {
        assert(labels_at(left, shared_left(left, right, output, true)) =~= batch_labels(
            left,
            right,
            output,
        ));
    } else {
        let front = left.drop_last();
        let last = (left.len() - 1) as usize;
        let rest = shared_left(front, right, output, batch);
        lemma_shared_left(front, right, output, batch);
        lemma_index_some(right, 0, left.last());
        let kept_here = right.contains(left.last()) && output.contains(left.last()) == batch;
        assert(index_from(right, 0, left.last()) is Some <==> right.contains(left.last()));
        assert forall|i: int|
            #![trigger left[i]]
            0 <= i < left.len() implies (all.contains(i as usize) <==> right.contains(left[i])
            && output.contains(left[i]) == batch) by {
            if i < front.len() {
                assert(front[i] == left[i]);
                if rest.contains(i as usize) {
                    let k = choose|k: int| 0 <= k < rest.len() && rest[k] == i as usize;
                    assert(all[k] == i as usize);
                }
                if all.contains(i as usize) {
                    let k = choose|k: int| 0 <= k < all.len() && all[k] == i as usize;
                    assert(k < rest.len());
                    assert(rest[k] == i as usize);
                }
            } else {
                if kept_here {
                    assert(all[rest.len() as int] == last);
                } else if all.contains(last) {
                    let k = choose|k: int| 0 <= k < rest.len() && rest[k] == last;
                    assert(rest[k] < front.len());
                }
            }
        }
        if batch {
            assert(labels_at(front, rest) =~= labels_at(left, rest));
            assert(labels_at(left, shared_left(left, right, output, true)) =~= batch_labels(
                left,
                right,
                output,
            ));
        }
    }
}

/// The shared positions of the right operand are those of labels that the left
/// one has.
pub(crate) proof fn lemma_shared_right(left: Seq<char>, right: Seq<char>, output: Seq<char>, batch: bool)
    requires
        right.no_duplicates(),
        right.len() <= usize::MAX,
    ensures
        forall|j: int|
            #![trigger right[j]]
            0 <= j < right.len() ==> (shared_right(left, right, output, batch).contains(j as usize)
                <==> left.contains(right[j]) && output.contains(right[j]) == batch),
    decreases left.len(),
{
    if left.len() > 0 {
        let front = left.drop_last();
        let rest = shared_right(front, right, output, batch);
        let all = shared_right(left, right, output, batch);
        lemma_shared_right(front, right, output, batch);
        lemma_index_some(right, 0, left.last());
        assert forall|j: int|
            #![trigger right[j]]
            0 <= j < right.len() implies (all.contains(j as usize) <==> left.contains(right[j])
            && output.contains(right[j]) == batch) by {
            let c = right[j];
            assert(left.contains(c) <==> front.contains(c) || left.last() == c) by {
                if front.contains(c) {
                    let k = choose|k: int| 0 <= k < front.len() && front[k] == c;
                    assert(left[k] == c);
                }
                if left.last() == c {
                    assert(left[left.len() - 1] == c);
                }
                if left.contains(c) && left.last() != c {
                    let k = choose|k: int| 0 <= k < left.len() && left[k] == c;
                    assert(front[k] == c);
                }
            }
            if rest.contains(j as usize) {
                let k = choose|k: int| 0 <= k < rest.len() && rest[k] == j as usize;
                assert(all[k] == j as usize);
            }
            if left.last() == c && output.contains(c) == batch {
                assert(index_from(right, 0, c) is Some);
                assert(index_from(right, 0, c) == Some(j as nat));
                assert(all[rest.len() as int] == j as usize);
            }
            if all.contains(j as usize) && !rest.contains(j as usize) {
                let k = choose|k: int| 0 <= k < all.len() && all[k] == j as usize;
                if k < rest.len() {
                    assert(rest[k] == j as usize);
                }
                assert(right[j] == left.last());
            }
        }
    }
}

/// The labels at the axes that are not used are those that the other list
/// lacks.
pub(crate) proof fn lemma_free_labels(labels: Seq<char>, used: Seq<usize>, other: Seq<char>, count: nat)
    requires
        count <= labels.len() <= usize::MAX,
        forall|i: int|
            #![trigger labels[i]]
            0 <= i < labels.len() ==> (used.contains(i as usize) <==> other.contains(labels[i])),
    ensures
        labels_at(labels, free_axes(count, used)) == labels_without(
            labels.take(count as int),
            other,
        ),
    decreases count,
{
    let part = labels.take(count as int);
    if count == 0 {
        assert(labels_at(labels, free_axes(0, used)) =~= labels_without(part, other));
    } else {
        lemma_free_labels(labels, used, other, (count - 1) as nat);
        assert(part.drop_last() =~= labels.take(count - 1));
        assert(part.last() == labels[count - 1]);
        assert(labels_at(labels, free_axes(count, used)) =~= labels_without(part, other));
    }
}

/// The free axes are axes.
pub(crate) proof fn lemma_free_bounded(rank: nat, used: Seq<usize>)
    requires
        rank <= usize::MAX,
    ensures
        forall|k: int|
            0 <= k < free_axes(rank, used).len() ==> #[trigger] free_axes(rank, used)[k] < rank,
    decreases rank,
{
    if rank > 0 {
        let rest = free_axes((rank - 1) as nat, used);
        lemma_free_bounded((rank - 1) as nat, used);
        assert forall|k: int| 0 <= k < free_axes(rank, used).len() implies #[trigger] free_axes(
            rank,
            used,
        )[k] < rank by {
            if k < rest.len() {
                assert(rest[k] < rank - 1);
            }
        }
    }
}

/// The order of the output finds its labels in the result.
pub(crate) proof fn lemma_order(result: Seq<char>, output: Seq<char>)
    requires
        output_order(result, output) is Some,
        result.len() <= usize::MAX,
    ensures
        output_order(result, output)->Some_0.len() == output.len(),
        forall|i: int|
            0 <= i < output.len() ==> #[trigger] output_order(result, output)->Some_0[i]
                < result.len() && result[output_order(result, output)->Some_0[i] as int]
                == output[i],
    decreases output.len(),
{
    if output.len() > 0 {
        lemma_order(result, output.drop_last());
        lemma_index_some(result, 0, output.last());
        let order = output_order(result, output)->Some_0;
        assert forall|i: int| 0 <= i < output.len() implies #[trigger] order[i] < result.len()
            && result[order[i] as int] == output[i] by {
            if i < output.len() - 1 {
                assert(output.drop_last()[i] == output[i]);
                assert(order[i] == output_order(result, output.drop_last())->Some_0[i]);
            }
        }
    }
}

/// Extents gathered at positions are those of the labels there.
pub(crate) proof fn lemma_gathered(labels: Seq<char>, positions: Seq<usize>, size: spec_fn(char) -> i64)
    requires
        forall|k: int| 0 <= k < positions.len() ==> #[trigger] positions[k] < labels.len(),
    ensures
        gathered(sizes_of(labels, size), positions) == sizes_of(labels_at(labels, positions), size),
{
    assert(gathered(sizes_of(labels, size), positions) =~= sizes_of(
        labels_at(labels, positions),
        size,
    ));
}

/// The contraction of prepared operands has the extents of the output labels.
pub(crate) proof fn lemma_contracted(
    x: Value,
    left: Seq<char>,
    y: Value,
    right: Seq<char>,
    output: Seq<char>,
    size: spec_fn(char) -> i64,
)
    requires
        contracted((Expr::Is(x), left), (Expr::Is(y), right), output) is Is,
        x.dims == sizes_of(left, size),
        y.dims == sizes_of(right, size),
        right.no_duplicates(),
        left.len() + right.len() <= usize::MAX,
    ensures
        contracted((Expr::Is(x), left), (Expr::Is(y), right), output)->Is_0.dims == sizes_of(
            output,
            size,
        ),
{
    broadcast use group_extents;

    let summed = shared_left(left, right, output, false);
    let batch = shared_left(left, right, output, true);
    let summed_right = shared_right(left, right, output, false);
    let batch_right = shared_right(left, right, output, true);
    let product = Expr::Is(x).dot_general(Expr::Is(y), summed, summed_right, batch, batch_right);
    let order = output_order(result_labels(left, right, output), output)->Some_0;
    assert(product is Is && product.transpose(order) is Is);
    crate::extents::contractions_order_their_axes(x, y, summed, summed_right, batch, batch_right);
    lemma_shared_left(left, right, output, false);
    lemma_shared_left(left, right, output, true);
    lemma_shared_right(left, right, output, false);
    lemma_shared_right(left, right, output, true);
    let used = summed + batch;
    assert forall|i: int|
        #![trigger left[i]]
        0 <= i < left.len() implies (used.contains(i as usize) <==> right.contains(left[i])) by {
        lemma_either(summed, batch, i as usize);
    }
    let used_right = summed_right + batch_right;
    assert forall|j: int|
        #![trigger right[j]]
        0 <= j < right.len() implies (used_right.contains(j as usize) <==> left.contains(
        right[j],
    )) by {
        lemma_either(summed_right, batch_right, j as usize);
    }
    lemma_free_labels(left, used, right, left.len());
    lemma_free_labels(right, used_right, left, right.len());
    assert(left.take(left.len() as int) =~= left);
    assert(right.take(right.len() as int) =~= right);
    lemma_free_bounded(left.len(), used);
    lemma_free_bounded(right.len(), used_right);
    lemma_gathered(left, batch, size);
    lemma_gathered(left, free_axes(left.len(), used), size);
    lemma_gathered(right, free_axes(right.len(), used_right), size);
    let result = result_labels(left, right, output);
    assert(product->Is_0.dims =~= sizes_of(result, size));
    lemma_result_bounded(left, right, output);
    lemma_order(result, output);
    assert(gathered(product->Is_0.dims, order) =~= sizes_of(output, size));
}

/// A list holds what either of its halves holds.
pub(crate) proof fn lemma_either(a: Seq<usize>, b: Seq<usize>, x: usize)
    ensures
        (a + b).contains(x) <==> a.contains(x) || b.contains(x),
{
    if a.contains(x) {
        let k = choose|k: int| 0 <= k < a.len() && a[k] == x;
        assert((a + b)[k] == x);
    }
    if b.contains(x) {
        let k = choose|k: int| 0 <= k < b.len() && b[k] == x;
        assert((a + b)[a.len() + k] == x);
    }
    if (a + b).contains(x) {
        let k = choose|k: int| 0 <= k < (a + b).len() && (a + b)[k] == x;
        if k < a.len() {
            assert(a[k] == x);
        } else {
            assert(b[k - a.len()] == x);
        }
    }
}

/// The result has no more labels than both operands.
pub(crate) proof fn lemma_result_bounded(left: Seq<char>, right: Seq<char>, output: Seq<char>)
    ensures
        result_labels(left, right, output).len() <= left.len() + right.len(),
{
    lemma_split_bounded(left, right, output);
    lemma_without_bounded(right, left);
}

proof fn lemma_split_bounded(left: Seq<char>, right: Seq<char>, output: Seq<char>)
    ensures
        batch_labels(left, right, output).len() + labels_without(left, right).len() <= left.len(),
    decreases left.len(),
{
    if left.len() > 0 {
        lemma_split_bounded(left.drop_last(), right, output);
        lemma_index_some(right, 0, left.last());
    }
}

proof fn lemma_without_bounded(labels: Seq<char>, other: Seq<char>)
    ensures
        labels_without(labels, other).len() <= labels.len(),
    decreases labels.len(),
{
    if labels.len() > 0 {
        lemma_without_bounded(labels.drop_last(), other);
    }
}

/// An einsum has, for each output label in order, the extent that the label
/// has in the operands.
pub proof fn einsum_has_the_extents_of_its_output_labels(x: Value, y: Value, equation: Seq<char>)
    requires
        Expr::Is(x).einsum(equation, Expr::Is(y)) is Is,
        crate::shape::volume(x.dims) is Some,
        crate::shape::volume(y.dims) is Some,
        x.dims.len() + y.dims.len() <= usize::MAX,
    ensures
        parsed(equation) is Ok,
        Expr::Is(x).einsum(equation, Expr::Is(y))->Is_0.dims == output_dims(
            parsed(equation)->Ok_0.left + parsed(equation)->Ok_0.right,
            x.dims + y.dims,
            parsed(equation)->Ok_0.output,
        ),
{
    broadcast use group_extents;

    let names = parsed(equation)->Ok_0;
    let all = names.left + names.right;
    let dims = x.dims + y.dims;
    let output = names.output;
    if !crate::einsum::sums_nothing(all, dims, output) {
        let size = |c: char| extent_of(all, dims, c);
        crate::shape::lemma_volume_nonnegative(x.dims);
        crate::shape::lemma_volume_nonnegative(y.dims);
        assert forall|i: int| 0 <= i < all.len() implies #[trigger] size(all[i]) == dims[i]
            && dims[i] >= 0 by {
            assert(all.contains(all[i]));
            let k = all.index_of(all[i]);
            assert(all[k] == all[i]);
        }
        assert forall|i: int| 0 <= i < names.left.len() implies size(#[trigger] names.left[i])
            == x.dims[i] && x.dims[i] >= 0 by {
            assert(all[i] == names.left[i]);
            assert(size(all[i]) == dims[i]);
        }
        assert forall|i: int| 0 <= i < names.right.len() implies size(#[trigger] names.right[i])
            == y.dims[i] && y.dims[i] >= 0 by {
            assert(all[names.left.len() + i] == names.right[i]);
            assert(size(all[names.left.len() + i]) == dims[names.left.len() + i]);
        }
        assert(x.dims =~= sizes_of(names.left, size));
        assert(y.dims =~= sizes_of(names.right, size));
        let left = prepared(Expr::Is(x), names.left, names.right, output);
        let right = prepared(Expr::Is(y), names.right, left.1, output);
        assert(left.0 is Is && right.0 is Is);
        lemma_prepared(x, names.left, names.right, output, size);
        lemma_prepared(y, names.right, left.1, output, size);
        lemma_contracted(left.0->Is_0, left.1, right.0->Is_0, right.1, output, size);
        assert(sizes_of(output, size) =~= output_dims(all, dims, output));
    }
}

} // verus!
