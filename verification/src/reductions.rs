//! What reductions over axes come to, as numbers.
use crate::adjoints::{lemma_collapsed_position, zeroed};
use crate::assignments::{count, kept_index, lemma_count_range, lemma_counted, replaced};
use crate::elements::{lemma_unravel, reshape_keeps_the_order, unravel, within};
use crate::facts::group_extents;
use crate::graph::{applied, Expr};
use crate::numbers::{greatest, group_numbers, group_operands, total, Numbers};
use crate::op::{Reduction, Scalar};
use crate::products::pulled;
use crate::shape::{chosen, collapsed, gathered, kept, lemma_chosen_members, volume};
use vstd::prelude::*;

verus! {

/// The coordinates that stay depend on which axes are listed alone.
proof fn lemma_kept_index_same(index: Seq<int>, a: Seq<usize>, b: Seq<usize>)
    requires
        forall|i: int|
            0 <= i < index.len() ==> (#[trigger] a.contains(i as usize) == b.contains(i as usize)),
    ensures
        kept_index(index, a) == kept_index(index, b),
    decreases index.len(),
{
    if index.len() > 0 {
        lemma_kept_index_same(index.drop_last(), a, b);
        assert(a.contains((index.len() - 1) as usize) == b.contains((index.len() - 1) as usize));
    }
}

/// What a reduction yields for a row.
pub open spec fn reduces(kind: Reduction, row: Seq<real>, z: real) -> bool {
    match kind {
        Reduction::Sum => z == total(row),
        Reduction::Maximum => row.len() > 0 ==> greatest(row, z),
    }
}

/// A reduction combines the numbers along its axes, whether it keeps them as
/// unit axes or not.
#[verifier::rlimit(40)]
pub proof fn reductions_combine_their_rows(
    n: Numbers,
    x: Expr,
    kind: Reduction,
    axes: Seq<usize>,
    index: Seq<int>,
)
    requires
        n.computes(),
        axes.len() > 0,
        x->Is_0.dims.len() <= usize::MAX,
        within(x->Is_0.dims, index),
    ensures
        x.reduce(kind, axes, false) is Is ==> reduces(
            kind,
            n.row(x, chosen(x->Is_0.dims.len(), axes), index),
            n.at(x.reduce(kind, axes, false), kept_index(index, axes)),
        ),
        x.reduce(kind, axes, true) is Is ==> reduces(
            kind,
            n.row(x, chosen(x->Is_0.dims.len(), axes), index),
            n.at(x.reduce(kind, axes, true), zeroed(index, axes)),
        ),
{
    broadcast use group_extents;

    reveal(Expr::reduce);
    let v = x->Is_0;
    let dims = v.dims;
    let listed = chosen(dims.len(), axes);
    let reduced = x.reduce(kind, axes, false);
    if reduced is Is {
        lemma_chosen_members(dims.len(), axes);
        assert forall|i: int| 0 <= i < index.len() implies (#[trigger] listed.contains(i as usize)
            == axes.contains(i as usize)) by {}
        lemma_kept_index_same(index, listed, axes);
        assert(reduces(
            kind,
            n.row(x, listed, index),
            n.at(reduced, kept_index(index, axes)),
        )) by {
            reveal(applied);
            reveal(Numbers::obeys);
            assert(reduced->Is_0.args[0] == v);
            assert(n.applies(reduced->Is_0, index));
            assert(n.obeys(reduced->Is_0, index));
        }
        let flat = collapsed(dims, axes);
        if x.reduce(kind, axes, true) is Is {
            lemma_collapsed_position(dims, axes, index);
            let there = zeroed(index, axes);
            reshape_keeps_the_order(reduced, flat, there);
            assert(reduced->Is_0.dims == kept(dims, axes)) by {
                reveal(applied);
            }
            lemma_unravel(kept(dims, axes), kept_index(index, axes));
        }
    }
}

/// The axes chosen by a list of one.
pub(crate) proof fn lemma_chosen_one(rank: nat, axis: usize)
    requires
        rank <= usize::MAX + 1,
    ensures
        chosen(rank, seq![axis]) == if axis < rank {
            seq![axis]
        } else {
            Seq::empty()
        },
    decreases rank,
{
    let axes = seq![axis];
    if rank > 0 {
        lemma_chosen_one((rank - 1) as nat, axis);
        assert(axes.contains((rank - 1) as usize) == (axis == rank - 1)) by {
            assert(axes[0] == axis);
        }
        if axis == rank - 1 {
            assert(Seq::<usize>::empty().push(axis) =~= seq![axis]);
        }
    }
}

/// A row over one axis is the line along it.
pub(crate) proof fn lemma_line(n: Numbers, x: Expr, axis: usize, index: Seq<int>)
    requires
        axis < x->Is_0.dims.len() <= usize::MAX,
        index.len() == x->Is_0.dims.len(),
        x->Is_0.dims[axis as int] >= 0,
    ensures
        n.row(x, chosen(x->Is_0.dims.len(), seq![axis]), index) == n.line(x, axis, index),
{
    let dims = x->Is_0.dims;
    lemma_chosen_one(dims.len(), axis);
    let axes = seq![axis];
    let inner = gathered(dims, axes);
    let size = dims[axis as int];
    assert(inner =~= seq![size]);
    assert(inner.drop_last() =~= Seq::<i64>::empty());
    reveal_with_fuel(count, 2);
    assert(count(inner) == size);
    let row = n.row(x, axes, index);
    let line = n.line(x, axis, index);
    assert forall|d: int| 0 <= d < size implies #[trigger] row[d] == line[d] by {
        reveal_with_fuel(unravel, 2);
        assert(unravel(inner, d) =~= seq![d % (size as int)]);
        assert(d % (size as int) == d) by (nonlinear_arith)
            requires
                0 <= d < size,
        ;
        let there = replaced(index, axes, unravel(inner, d));
        assert(axes[0] == axis);
        assert(axes.index_of(axis) == 0);
        assert forall|i: int| 0 <= i < index.len() implies #[trigger] there[i] == index.update(
            axis as int,
            d,
        )[i] by {
            assert(axes.contains(i as usize) == (i == axis));
        }
        assert(there =~= index.update(axis as int, d));
    }
    assert(row =~= line);
}

/// A kept reduction, read from an index of the operand.
pub(crate) proof fn lemma_pulled_back(dims: Seq<i64>, axes: Seq<usize>, index: Seq<int>)
    requires
        within(dims, index),
    ensures
        pulled(collapsed(dims, axes), index) == zeroed(index, axes),
        within(collapsed(dims, axes), zeroed(index, axes)),
{
    let flat = collapsed(dims, axes);
    let there = zeroed(index, axes);
    assert forall|i: int| 0 <= i < dims.len() implies #[trigger] pulled(flat, index)[i] == there[i]
        && 0 <= there[i] < flat[i] by {
        assert(0 <= index[i] < dims[i]);
    }
    assert(pulled(flat, index) =~= there);
}

/// A reduction over one axis, kept as a unit axis, at an index of the operand.
#[verifier::rlimit(40)]
pub proof fn axes_reduce_their_lines(
    n: Numbers,
    x: Expr,
    kind: Reduction,
    axis: usize,
    index: Seq<int>,
)
    requires
        n.computes(),
        x->Is_0.dims.len() <= usize::MAX,
        within(x->Is_0.dims, index),
        x.reduce(kind, seq![axis], true) is Is,
    ensures
        axis < x->Is_0.dims.len(),
        x.reduce(kind, seq![axis], true)->Is_0.dims == collapsed(x->Is_0.dims, seq![axis]),
        pulled(collapsed(x->Is_0.dims, seq![axis]), index) == zeroed(index, seq![axis]),
        within(collapsed(x->Is_0.dims, seq![axis]), zeroed(index, seq![axis])),
        reduces(
            kind,
            n.line(x, axis, index),
            n.at(x.reduce(kind, seq![axis], true), zeroed(index, seq![axis])),
        ),
{
    broadcast use group_extents;

    let axes = seq![axis];
    assert(axes[0] == axis);
    assert(axis < x->Is_0.dims.len()) by {
        reveal(Expr::reduce);
    }
    assert(0 <= index[axis as int] < x->Is_0.dims[axis as int]);
    reductions_combine_their_rows(n, x, kind, axes, index);
    lemma_line(n, x, axis, index);
    lemma_pulled_back(x->Is_0.dims, axes, index);
}

/// A reduction over one axis that it removes, at an index of the operand.
#[verifier::rlimit(40)]
pub proof fn removed_axes_reduce_their_lines(
    n: Numbers,
    x: Expr,
    kind: Reduction,
    axis: usize,
    index: Seq<int>,
)
    requires
        n.computes(),
        x->Is_0.dims.len() <= usize::MAX,
        within(x->Is_0.dims, index),
        x.reduce(kind, seq![axis], false) is Is,
    ensures
        axis < x->Is_0.dims.len(),
        reduces(
            kind,
            n.line(x, axis, index),
            n.at(x.reduce(kind, seq![axis], false), index.remove(axis as int)),
        ),
{
    broadcast use group_extents;

    let axes = seq![axis];
    assert(axes[0] == axis);
    assert(axis < x->Is_0.dims.len()) by {
        reveal(Expr::reduce);
    }
    assert(0 <= index[axis as int] < x->Is_0.dims[axis as int]);
    reductions_combine_their_rows(n, x, kind, axes, index);
    lemma_line(n, x, axis, index);
    lemma_kept_one(index, axis);
}

/// The extents beside one axis.
pub(crate) proof fn lemma_kept_dims_one(dims: Seq<i64>, axis: usize)
    requires
        dims.len() <= usize::MAX,
    ensures
        kept(dims, seq![axis]) == if axis < dims.len() {
            dims.remove(axis as int)
        } else {
            dims
        },
    decreases dims.len(),
{
    let axes = seq![axis];
    if dims.len() > 0 {
        lemma_kept_dims_one(dims.drop_last(), axis);
        assert(axes.contains((dims.len() - 1) as usize) == (axis == dims.len() - 1)) by {
            assert(axes[0] == axis);
        }
        if axis == dims.len() - 1 {
            assert(dims.remove(axis as int) =~= dims.drop_last());
        } else if axis < dims.len() {
            assert(dims.remove(axis as int) =~= dims.drop_last().remove(axis as int).push(
                dims.last(),
            ));
        } else {
            assert(dims =~= dims.drop_last().push(dims.last()));
        }
    } else {
        assert(kept(dims, axes) =~= dims);
    }
}

/// The coordinates beside one axis.
pub(crate) proof fn lemma_kept_one(index: Seq<int>, axis: usize)
    requires
        index.len() <= usize::MAX,
    ensures
        kept_index(index, seq![axis]) == if axis < index.len() {
            index.remove(axis as int)
        } else {
            index
        },
    decreases index.len(),
{
    let axes = seq![axis];
    if index.len() > 0 {
        lemma_kept_one(index.drop_last(), axis);
        assert(axes.contains((index.len() - 1) as usize) == (axis == index.len() - 1)) by {
            assert(axes[0] == axis);
        }
        if axis == index.len() - 1 {
            assert(index.remove(axis as int) =~= index.drop_last());
        } else if axis < index.len() {
            assert(index.remove(axis as int) =~= index.drop_last().remove(axis as int).push(
                index.last(),
            ));
        } else {
            assert(index =~= index.drop_last().push(index.last()));
        }
    } else {
        assert(kept_index(index, axes) =~= index);
    }
}

/// The index of one number of a row.
pub open spec fn row_index(dims: Seq<i64>, axes: Seq<usize>, index: Seq<int>, d: int) -> Seq<int> {
    replaced(index, axes, unravel(gathered(dims, axes), d))
}

/// A row has as many numbers as its axes have indices.
pub(crate) proof fn lemma_row_count(dims: Seq<i64>, axes: Seq<usize>, index: Seq<int>)
    requires
        within(dims, index),
        dims.len() <= usize::MAX,
    ensures
        count(gathered(dims, chosen(dims.len(), axes))) >= 0,
{
    let listed = chosen(dims.len(), axes);
    lemma_chosen_members(dims.len(), axes);
    let inner = gathered(dims, listed);
    assert forall|i: int| 0 <= i < inner.len() implies #[trigger] inner[i] >= 0 by {
        assert(listed[i] < dims.len());
        assert(0 <= index[listed[i] as int] < dims[listed[i] as int]);
    }
    lemma_count_range(inner);
}

/// A row is the same from every index of it.
pub(crate) proof fn lemma_row_index(
    dims: Seq<i64>,
    axes: Seq<usize>,
    index: Seq<int>,
    d: int,
)
    requires
        within(dims, index),
        dims.len() <= usize::MAX,
        0 <= d < count(gathered(dims, chosen(dims.len(), axes))),
    ensures
        ({
            let listed = chosen(dims.len(), axes);
            let there = row_index(dims, listed, index, d);
            &&& within(dims, there)
            &&& zeroed(there, axes) == zeroed(index, axes)
            &&& forall|e: int| #[trigger] row_index(dims, listed, there, e) == row_index(
                dims,
                listed,
                index,
                e,
            )
        }),
{
    let listed = chosen(dims.len(), axes);
    lemma_chosen_members(dims.len(), axes);
    let inner = gathered(dims, listed);
    assert forall|i: int| 0 <= i < inner.len() implies #[trigger] inner[i] >= 0 by {
        assert(listed[i] < dims.len());
        assert(0 <= index[listed[i] as int] < dims[listed[i] as int]);
    }
    lemma_counted(inner, d);
    let values = unravel(inner, d);
    let there = row_index(dims, listed, index, d);
    assert forall|i: int| 0 <= i < dims.len() implies 0 <= #[trigger] there[i] < dims[i] by {
        assert(0 <= index[i] < dims[i]);
        if listed.contains(i as usize) {
            let k = listed.index_of(i as usize);
            assert(listed[k] == i as usize);
            assert(0 <= values[k] < inner[k]);
        }
    }
    assert(zeroed(there, axes) =~= zeroed(index, axes)) by {
        assert forall|i: int| 0 <= i < there.len() implies #[trigger] zeroed(there, axes)[i]
            == zeroed(index, axes)[i] by {
            assert(listed.contains(i as usize) == axes.contains(i as usize));
        }
    }
    assert forall|e: int| #[trigger] row_index(dims, listed, there, e) == row_index(
        dims,
        listed,
        index,
        e,
    ) by {
        assert(row_index(dims, listed, there, e) =~= row_index(dims, listed, index, e));
    }
}

/// An element count is the product of the extents.
pub(crate) proof fn lemma_volume_count(dims: Seq<i64>)
    requires
        volume(dims) is Some,
    ensures
        volume(dims)->Some_0 == count(dims),
    decreases dims.len(),
{
    if dims.len() > 0 {
        lemma_volume_count(dims.drop_last());
    }
}

/// A mean over axes, times the number of elements along them, is their sum.
#[verifier::rlimit(40)]
pub proof fn means_times_their_count_are_sums(
    n: Numbers,
    x: Expr,
    axes: Seq<usize>,
    index: Seq<int>,
)
    requires
        n.computes(),
        axes.len() > 0,
        x->Is_0.dims.len() <= usize::MAX,
        within(x->Is_0.dims, index),
        x.mean(axes, true) is Is,
    ensures
        x.mean(axes, true)->Is_0.dims == collapsed(x->Is_0.dims, axes),
        volume(gathered(x->Is_0.dims, axes)) is Some,
        volume(gathered(x->Is_0.dims, axes))->Some_0 > 0,
        n.at(x.mean(axes, true), zeroed(index, axes)) * (volume(
            gathered(x->Is_0.dims, axes),
        )->Some_0 as real) == total(n.row(x, chosen(x->Is_0.dims.len(), axes), index)),
{
    broadcast use {group_extents, group_operands, group_numbers};

    reveal(Expr::mean);
    let sums = x.sum(axes, true);
    let count = volume(gathered(x->Is_0.dims, axes))->Some_0;
    reductions_combine_their_rows(n, x, Reduction::Sum, axes, index);
    lemma_pulled_back(x->Is_0.dims, axes, index);
    let there = zeroed(index, axes);
    assert(count <= usize::MAX);
    assert(n.at(x.mean(axes, true), there) == n.at(sums, there) * n.constant(
        Scalar::Reciprocal { count: count as u64 },
    ));
    lemma_unscaled(n.at(sums, there), count as real);
}

proof fn lemma_unscaled(a: real, c: real)
    by (nonlinear_arith)
    requires
        c > 0 as real,
    ensures
        (a * (1 as real / c)) * c == a,
{
}

/// Whether a number is the least of a list.
pub open spec fn least(items: Seq<real>, a: real) -> bool {
    &&& exists|k: int| 0 <= k < items.len() && #[trigger] items[k] == a
    &&& forall|k: int| 0 <= k < items.len() ==> a <= #[trigger] items[k]
}

/// A minimum over one axis is the least number along it.
#[verifier::rlimit(40)]
pub proof fn minima_are_least(n: Numbers, x: Expr, axis: usize, index: Seq<int>)
    requires
        n.computes(),
        x.min(seq![axis], false) is Is,
        x->Is_0.dims.len() <= usize::MAX,
        within(x->Is_0.dims, index),
    ensures
        axis < x->Is_0.dims.len(),
        least(
            n.line(x, axis, index),
            n.at(x.min(seq![axis], false), index.remove(axis as int)),
        ),
{
    broadcast use {group_extents, group_operands, group_numbers};

    let opposite = x.neg();
    let most = opposite.max(seq![axis], false);
    assert(x.min(seq![axis], false) == most.neg());
    assert(opposite is Is && most is Is);
    removed_axes_reduce_their_lines(n, opposite, Reduction::Maximum, axis, index);
    let dims = x->Is_0.dims;
    let a = axis as int;
    let row = index.remove(a);
    assert(0 <= index[a] < dims[a]);
    let (line, turned) = (n.line(x, axis, index), n.line(opposite, axis, index));
    assert forall|k: int| 0 <= k < dims[a] implies #[trigger] turned[k] == -line[k] by {
        let at = index.update(a, k);
        assert(within(dims, at)) by {
            assert forall|i: int| 0 <= i < dims.len() implies 0 <= #[trigger] at[i] < dims[i] by {
                assert(0 <= index[i] < dims[i]);
            }
        }
        assert(n.at(opposite, at) == -n.at(x, at));
    }
    lemma_kept_dims_one(dims, axis);
    assert(most->Is_0.dims == dims.remove(a)) by {
        reveal(applied);
    }
    assert(within(dims.remove(a), row)) by {
        let small = dims.remove(a);
        assert forall|i: int| 0 <= i < small.len() implies 0 <= #[trigger] row[i] < small[i] by {
            if i < a {
                assert(0 <= index[i] < dims[i]);
            } else {
                assert(0 <= index[i + 1] < dims[i + 1]);
            }
        }
    }
    let z = n.at(most, row);
    assert(n.at(most.neg(), row) == -z);
    let k = choose|k: int| 0 <= k < turned.len() && #[trigger] turned[k] == z;
    assert(line[k] == -z);
    assert forall|k: int| 0 <= k < line.len() implies -z <= #[trigger] line[k] by {
        assert(turned[k] <= z);
    }
}

} // verus!
