//! What flows back through running sums, maxima and explicit derivatives, as
//! numbers.
use crate::adjoints::{lemma_collapsed_position, zeroed};
use crate::assignments::kept_index;
use crate::derivatives::offered;
use crate::dtype::is_floating;
use crate::elements::{
    flips_count_from_the_end, lemma_unravel, reshape_keeps_the_order, reversed_index, within,
};
use crate::facts::group_extents;
use crate::gradients::{consistent, diagonal_gradients, maximum_gradient, rule, spread, tally};
use crate::graph::{applied, Expr, Value};
use crate::numbers::{
    greatest, group_numbers, group_operands, indicator, spread_number, total, Numbers,
};
use crate::op::{OpModel, Reduction, Scalar, F32_NAN, F32_ZERO};
use crate::reductions::{
    lemma_pulled_back, lemma_row_count, lemma_row_index, reductions_combine_their_rows, row_index,
};
use crate::shape::{chosen, collapsed, kept};
use vstd::prelude::*;

verus! {

/// A running sum adds up the numbers along its axis up to each.
pub proof fn running_sums_add_up(n: Numbers, x: Expr, axis: usize, index: Seq<int>)
    requires
        n.computes(),
        x.cumsum(axis) is Is,
        within(x->Is_0.dims, index),
    ensures
        n.at(x.cumsum(axis), index) == total(n.line(x, axis, index).take(index[axis as int] + 1)),
        x.cumsum(axis)->Is_0.dims == x->Is_0.dims,
        axis < x->Is_0.dims.len(),
{
    reveal(applied);
    reveal(Numbers::obeys);
    let z = x.cumsum(axis)->Is_0;
    let a = axis as int;
    assert(0 <= index[a] < x->Is_0.dims[a]);
    assert(!x->Is_0.dims.contains(0)) by {
        assert forall|i: int| 0 <= i < index.len() implies x->Is_0.dims[i] != 0 by {
            assert(0 <= index[i] < x->Is_0.dims[i]);
        }
    }
    if x->Is_0.dims[a] <= 1 {
        let some = n.line(x, axis, index).take(1);
        assert(index.update(a, 0) =~= index);
        assert(some.drop_last() =~= Seq::<real>::empty());
        assert(some.last() == n.at(x, index));
        assert(total(Seq::<real>::empty()) == 0 as real);
        assert(total(some) == n.at(x, index));
        assert(index[a] + 1 == 1);
    } else {
        assert(z.op == (OpModel::Cumsum { axis }) && z.args[0] == x->Is_0);
        assert(n.obeys(z, index));
    }
}

/// A sum starts with its first addend.
proof fn lemma_total_front(items: Seq<real>)
    requires
        items.len() > 0,
    ensures
        total(items) == items[0] + total(items.skip(1)),
    decreases items.len(),
{
    if items.len() == 1 {
        assert(items.drop_last() =~= Seq::<real>::empty());
        assert(items.skip(1) =~= Seq::<real>::empty());
    } else {
        lemma_total_front(items.drop_last());
        assert(items.drop_last().skip(1) =~= items.skip(1).drop_last());
        assert(items.skip(1).last() == items.last());
    }
}

/// A sum does not depend on the end that it starts from.
proof fn lemma_total_reversed(items: Seq<real>, other: Seq<real>)
    requires
        items.len() == other.len(),
        forall|k: int| 0 <= k < items.len() ==> #[trigger] other[k] == items[items.len() - 1 - k],
    ensures
        total(other) == total(items),
    decreases items.len(),
{
    if items.len() > 0 {
        lemma_total_front(items);
        let (a, b) = (items.skip(1), other.drop_last());
        assert forall|k: int| 0 <= k < a.len() implies #[trigger] b[k] == a[a.len() - 1 - k] by {
            assert(other[k] == items[items.len() - 1 - k]);
        }
        lemma_total_reversed(a, b);
        assert(other[items.len() - 1] == items[0]);
    }
}

/// A flip of one axis counts it from the end.
proof fn lemma_flipped(n: Numbers, x: Expr, axis: usize, index: Seq<int>)
    requires
        x.flip(seq![axis]) is Is,
        axis < index.len() == x->Is_0.dims.len() <= usize::MAX,
    ensures
        n.at(x.flip(seq![axis]), index) == n.at(
            x,
            index.update(axis as int, x->Is_0.dims[axis as int] - 1 - index[axis as int]),
        ),
{
    let axes = seq![axis];
    assert(axes[0] == axis);
    flips_count_from_the_end(x, axes, index);
    assert(reversed_index(x->Is_0.dims, axes, index) =~= index.update(
        axis as int,
        x->Is_0.dims[axis as int] - 1 - index[axis as int],
    ));
}

/// A number of a running sum counts in it and in all later ones: its gradient is
/// the sum of their cotangents.
#[verifier::rlimit(40)]
pub proof fn gradients_of_running_sums_add_the_later_cotangents(
    n: Numbers,
    v: Value,
    dy: Value,
    axis: usize,
    index: Seq<int>,
)
    requires
        n.lawful(),
        offered(v, dy, index),
        v.op == (OpModel::Cumsum { axis }),
    ensures
        rule(v, dy).len() == 1,
        rule(v, dy)[0].0 == 0,
        n.at(rule(v, dy)[0].1, index) == total(
            n.line(Expr::Is(dy), axis, index).skip(index[axis as int]),
        ),
{
    broadcast use group_extents;

    let d = Expr::Is(dy);
    reveal(rule);
    let axes = seq![axis];
    let a = axis as int;
    let turned = d.flip(axes);
    let summed = turned.cumsum(axis);
    let back = summed.flip(axes);
    assert(rule(v, dy)[0].1 == back);
    assert(back is Is && summed is Is && turned is Is);
    assert(0 <= index[a] < v.dims[a]);
    let size = v.dims[a];
    lemma_flipped(n, summed, axis, index);
    let at = index.update(a, size - 1 - index[a]);
    assert(within(v.dims, at)) by {
        assert forall|i: int| 0 <= i < v.dims.len() implies 0 <= #[trigger] at[i] < v.dims[i] by {
            assert(0 <= index[i] < v.dims[i]);
        }
    }
    running_sums_add_up(n, turned, axis, at);
    let mine = n.line(turned, axis, at).take(at[a] + 1);
    let theirs = n.line(d, axis, index).skip(index[a]);
    assert forall|k: int| 0 <= k < mine.len() implies #[trigger] mine[k] == theirs[theirs.len() - 1
        - k] by {
        lemma_flipped(n, d, axis, at.update(a, k));
        assert(at.update(a, k).update(a, size - 1 - k) =~= index.update(a, size - 1 - k));
    }
    lemma_total_reversed(theirs, mine);
}

/// One for every element of a row that is a given number, zero for the others.
pub open spec fn marks(row: Seq<real>, most: real) -> Seq<real> {
    Seq::new(row.len(), |k: int| indicator(row[k] == most))
}

/// The number of greatest elements of a row.
pub open spec fn ties(row: Seq<real>, most: real) -> real {
    total(marks(row, most))
}

proof fn lemma_ties(row: Seq<real>, most: real, k: int)
    requires
        0 <= k < row.len(),
        row[k] == most,
    ensures
        ties(row, most) > 0 as real,
    decreases row.len(),
{
    let front = row.drop_last();
    let rest = marks(front, most);
    assert(marks(row, most).drop_last() =~= rest);
    lemma_nonnegative(rest);
    if k < front.len() {
        lemma_ties(front, most, k);
    }
}

proof fn lemma_nonnegative(items: Seq<real>)
    requires
        forall|k: int| 0 <= k < items.len() ==> #[trigger] items[k] >= 0 as real,
    ensures
        total(items) >= 0 as real,
    decreases items.len(),
{
    if items.len() > 0 {
        let front = items.drop_last();
        assert forall|k: int| 0 <= k < front.len() implies #[trigger] front[k] >= 0 as real by {
            assert(items[k] >= 0 as real);
        }
        lemma_nonnegative(front);
        assert(items[items.len() - 1] >= 0 as real);
    }
}

proof fn lemma_zeros(items: Seq<real>)
    requires
        forall|k: int| 0 <= k < items.len() ==> #[trigger] items[k] == 0 as real,
    ensures
        total(items) == 0 as real,
    decreases items.len(),
{
    if items.len() > 0 {
        let front = items.drop_last();
        assert forall|k: int| 0 <= k < front.len() implies #[trigger] front[k] == 0 as real by {
            assert(items[k] == 0 as real);
        }
        lemma_zeros(front);
        assert(items[items.len() - 1] == 0 as real);
    }
}

/// A value of reduced extents, spread over the operand.
#[verifier::rlimit(40)]
proof fn lemma_spread(n: Numbers, e: Expr, dims: Seq<i64>, axes: Seq<usize>, index: Seq<int>)
    requires
        spread(e, dims, axes) is Is,
        e is Is,
        e->Is_0.dims == kept(dims, axes),
        dims.len() <= usize::MAX,
        within(dims, index),
    ensures
        spread(e, dims, axes)->Is_0.dims == dims,
        n.at(spread(e, dims, axes), index) == n.at(e, kept_index(index, axes)),
{
    broadcast use group_extents;

    reveal(spread);
    let flat = collapsed(dims, axes);
    let y = e.reshape(flat);
    assert(y is Is);
    spread_number(n, y, dims, index);
    lemma_pulled_back(dims, axes, index);
    let there = zeroed(index, axes);
    reshape_keeps_the_order(e, flat, there);
    lemma_collapsed_position(dims, axes, index);
    lemma_unravel(kept(dims, axes), kept_index(index, axes));
}

/// The sum of a mask over axes, spread over the operand.
#[verifier::rlimit(40)]
proof fn lemma_tally(
    n: Numbers,
    mask: Expr,
    dims: Seq<i64>,
    axes: Seq<usize>,
    stop: bool,
    index: Seq<int>,
)
    requires
        n.computes(),
        tally(mask, dims, axes, stop) is Is,
        mask is Is,
        mask->Is_0.dims == dims,
        axes.len() > 0,
        dims.len() <= usize::MAX,
        within(dims, index),
    ensures
        tally(mask, dims, axes, stop)->Is_0.dims == dims,
        n.at(tally(mask, dims, axes, stop), index) == total(
            n.row(mask, chosen(dims.len(), axes), index),
        ),
{
    broadcast use {group_extents, group_operands, group_numbers};

    reveal(tally);
    let sums = mask.sum(axes, true);
    assert(sums is Is);
    reductions_combine_their_rows(n, mask, Reduction::Sum, axes, index);
    lemma_pulled_back(dims, axes, index);
    if stop {
        spread_number(n, sums.detach(), dims, index);
    } else {
        spread_number(n, sums, dims, index);
    }
}

proof fn lemma_shared(d: real, c: real)
    by (nonlinear_arith)
    requires
        c > 0 as real,
    ensures
        (d / c) * c == d,
{
}

/// The gradient of a maximum goes to the greatest elements alone, in equal
/// shares.
#[verifier::rlimit(60)]
pub proof fn gradients_of_maxima_are_shared_by_the_greatest(
    n: Numbers,
    v: Value,
    dy: Value,
    axes: Seq<usize>,
    index: Seq<int>,
)
    requires
        n.lawful(),
        consistent(v),
        v.op == (OpModel::Reduce { kind: Reduction::Maximum, axes }),
        axes == chosen(v.args[0].dims.len(), axes),
        axes.len() > 0,
        dy.dims == v.dims,
        is_floating(dy.dtype),
        rule(v, dy)[0].1 is Is,
        within(v.args[0].dims, index),
    ensures
        rule(v, dy).len() == 1,
        rule(v, dy)[0].0 == 0,
        ({
            let row = n.row(Expr::Is(v.args[0]), axes, index);
            let most = n.of(v, kept_index(index, axes));
            let g = n.at(rule(v, dy)[0].1, index);
            &&& greatest(row, most)
            &&& ties(row, most) > 0 as real
            &&& if n.of(v.args[0], index) == most {
                g * ties(row, most) == n.of(dy, kept_index(index, axes))
            } else {
                g == 0 as real
            }
        }),
{
    broadcast use {group_extents, group_operands, group_numbers};

    let d = Expr::Is(dy);
    let y = Expr::Is(v);
    let x = Expr::Is(v.args[0]);
    let dims = v.args[0].dims;
    reveal(rule);
    let spread_d = spread(d, dims, axes);
    let part = maximum_gradient(x, y, spread_d, dims, axes);
    assert(rule(v, dy)[0].1 == part && part is Is && spread_d is Is);
    reveal(maximum_gradient);
    let winner = spread(y, dims, axes);
    let mask = x.eq_mask(winner);
    let count = tally(mask, dims, axes, true);
    let zero = x.filled(Scalar::Bits(F32_ZERO));
    let nan = x.filled(Scalar::Bits(F32_NAN));
    let share = spread_d.div(count);
    let shared = mask.select(share, zero);
    let odd = x.ne_mask(x);
    let nan_count = tally(odd, dims, axes, false);
    let some = count.gt_mask(zero);
    let usual = some.select(shared, nan);
    let spoiled = nan_count.gt_mask(zero);
    assert(part == spoiled.select(nan, usual));
    assert(spoiled is Is && usual is Is && some is Is && nan_count is Is && odd is Is && shared is Is
        && share is Is && nan is Is && zero is Is && count is Is && mask is Is && winner is Is);
    let at = kept_index(index, axes);
    let row = n.row(x, axes, index);
    let most = n.of(v, at);
    lemma_row_count(dims, axes, index);
    assert(greatest(row, most)) by {
        reveal(Numbers::obeys);
        assert(n.obeys(v, index));
        crate::likelihoods::lemma_row_nonempty(dims, axes, index);
    }
    lemma_spread(n, d, dims, axes, index);
    lemma_spread(n, y, dims, axes, index);
    let found = n.row(mask, axes, index);
    let wanted = marks(row, most);
    let odds = n.row(odd, axes, index);
    assert(mask->Is_0.dims == dims && odd->Is_0.dims == dims);
    assert(found.len() == row.len() && odds.len() == row.len());
    assert forall|k: int|
        #![trigger found[k]]
        #![trigger odds[k]]
        0 <= k < row.len() implies found[k] == wanted[k] && odds[k] == 0 as real by {
        let there = row_index(dims, axes, index, k);
        lemma_row_index(dims, axes, index, k);
        lemma_spread(n, y, dims, axes, there);
        assert(kept_index(there, axes) == at) by {
            lemma_same_place(dims, axes, index, there);
        }
        assert(n.at(mask, there) == indicator(n.at(x, there) == n.at(winner, there)));
        assert(n.at(odd, there) == indicator(n.at(x, there) != n.at(x, there)));
    }
    assert(found =~= wanted);
    lemma_zeros(odds);
    lemma_tally(n, mask, dims, axes, true, index);
    lemma_tally(n, odd, dims, axes, false, index);
    let k = choose|k: int| 0 <= k < row.len() && #[trigger] row[k] == most;
    lemma_ties(row, most, k);
    let c = n.at(count, index);
    assert(c == ties(row, most));
    assert(n.at(nan_count, index) == 0 as real);
    lemma_shared(n.of(dy, at), c);
    assert(n.at(share, index) == n.at(spread_d, index) / c);
    assert(n.at(part, index) == n.at(usual, index));
    assert(n.at(usual, index) == n.at(shared, index));
}

/// Two indices of one row keep the same coordinates beside its axes.
proof fn lemma_same_place(dims: Seq<i64>, axes: Seq<usize>, one: Seq<int>, other: Seq<int>)
    requires
        one.len() == other.len(),
        one.len() <= usize::MAX,
        zeroed(one, axes) == zeroed(other, axes),
    ensures
        kept_index(one, axes) == kept_index(other, axes),
    decreases one.len(),
{
    if one.len() > 0 {
        let last = one.len() - 1;
        assert(zeroed(one, axes).drop_last() =~= zeroed(one.drop_last(), axes));
        assert(zeroed(other, axes).drop_last() =~= zeroed(other.drop_last(), axes));
        lemma_same_place(dims, axes, one.drop_last(), other.drop_last());
        assert(zeroed(one, axes)[last] == zeroed(other, axes)[last]);
        if !axes.contains((one.len() - 1) as usize) {
            assert(last as usize == (one.len() - 1) as usize);
            assert(zeroed(one, axes)[last] == one[last] && zeroed(other, axes)[last]
                == other[last]);
            assert(one.last() == other.last());
        }
    }
}

/// An explicit derivative multiplies the cotangent.
#[verifier::rlimit(40)]
pub proof fn explicit_derivatives_multiply_the_cotangent(
    n: Numbers,
    v: Value,
    dy: Value,
    k: int,
    index: Seq<int>,
)
    requires
        n.lawful(),
        offered(v, dy, index),
        v.op is WithElementwiseDerivative,
        0 <= k < (v.args.len() - 1) / 2,
    ensures
        rule(v, dy).len() == (v.args.len() - 1) / 2,
        rule(v, dy)[k].0 == 2 * k + 1,
        n.at(rule(v, dy)[k].1, index) == n.of(dy, index) * n.of(v.args[2 * k + 2], index),
{
    broadcast use {group_extents, group_operands, group_numbers};

    reveal(rule);
    assert(rule(v, dy) == diagonal_gradients(v.args, Expr::Is(dy)));
    assert(rule(v, dy)[k].1 is Is);
}

/// Values that pass a number on pass its cotangent back: a barrier to its
/// operand, a written state to what was written, a substitute gradient to the
/// operand that stands in.
#[verifier::rlimit(40)]
pub proof fn passed_on_numbers_pass_the_cotangent_back(
    n: Numbers,
    v: Value,
    dy: Value,
    index: Seq<int>,
)
    requires
        n.lawful(),
        offered(v, dy, index),
        v.op is OptimizationBarrier || v.op is StateWrite || v.op is WithGradient,
    ensures
        rule(v, dy).len() == 1,
        rule(v, dy)[0].0 == if v.op is WithGradient {
            1
        } else {
            0nat
        },
        n.at(rule(v, dy)[0].1, index) == n.of(dy, index),
{
    broadcast use {group_extents, group_operands, group_numbers};

    reveal(rule);
    assert(rule(v, dy)[0].1 is Is);
}

/// A conversion between floating types passes the cotangent back, converted; one
/// from another type passes nothing.
#[verifier::rlimit(40)]
pub proof fn conversions_pass_the_cotangent_back(n: Numbers, v: Value, dy: Value, index: Seq<int>)
    requires
        n.lawful(),
        offered(v, dy, index),
        v.op is Convert,
    ensures
        rule(v, dy).len() == if is_floating(v.args[0].dtype) {
            1
        } else {
            0nat
        },
        is_floating(v.args[0].dtype) ==> rule(v, dy)[0].0 == 0 && n.at(rule(v, dy)[0].1, index)
            == n.of(dy, index),
{
    reveal(rule);
    if is_floating(v.args[0].dtype) {
        let d = Expr::Is(dy);
        let part = d.cast(v.args[0].dtype);
        assert(rule(v, dy)[0].1 == part && part is Is);
        reveal(applied);
        reveal(crate::graph::typed);
        reveal(Numbers::obeys);
        if dy.dtype != v.args[0].dtype {
            assert(n.obeys(part->Is_0, index));
        }
    }
}

} // verus!
