//! Probabilities from logits: softmax, log-sum-exp and cross entropies, as
//! numbers.
use crate::adjoints::{lemma_collapsed_position, zeroed};
use crate::assignments::{count, kept_index};
use crate::corners::greater;
use crate::dtype::DType;
use crate::elements::{clamped, copied, lemma_unravel, reshape_keeps_the_order, within};
use crate::facts::group_extents;
use crate::graph::{applied, scalar, scalar_i32, typed, Expr};
use crate::masks::lemma_pulled;
use crate::nn::last_class;
use crate::numbers::{
    group_numbers, group_operands, indicator, signed, spread_number, total, Numbers,
};
use crate::op::{OpModel, Reduction, Scalar, F32_NAN, F32_ZERO};
use crate::products::pulled;
use crate::reductions::{
    axes_reduce_their_lines, lemma_pulled_back, lemma_row_count, lemma_row_index,
    reductions_combine_their_rows, removed_axes_reduce_their_lines, row_index,
};
use crate::shape::{chosen, collapsed, gathered, kept, lemma_chosen_members};
use crate::statistics::interleaved;
use vstd::prelude::*;

verus! {

/// The exponentials of a list of numbers.
pub open spec fn exponentials(n: Numbers, items: Seq<real>) -> Seq<real> {
    Seq::new(items.len(), |k: int| (n.exp)(items[k]))
}

proof fn lemma_scaled_step(a: real, b: real, c: real, d: real, f: real)
    by (nonlinear_arith)
    requires
        a * f == b,
        c * f == d,
    ensures
        (a + c) * f == b + d,
{
}

/// A common factor of all addends is one of their sum.
pub(crate) proof fn lemma_scaled_total(one: Seq<real>, other: Seq<real>, factor: real)
    requires
        one.len() == other.len(),
        forall|k: int| 0 <= k < one.len() ==> #[trigger] one[k] * factor == other[k],
    ensures
        total(one) * factor == total(other),
    decreases one.len(),
{
    if one.len() > 0 {
        let (a, b) = (one.drop_last(), other.drop_last());
        assert forall|k: int| 0 <= k < a.len() implies #[trigger] a[k] * factor == b[k] by {
            assert(one[k] * factor == other[k]);
        }
        lemma_scaled_total(a, b, factor);
        assert(one[one.len() - 1] * factor == other[one.len() - 1]);
        lemma_scaled_step(total(a), total(b), one.last(), other.last(), factor);
    } else {
        assert(0 as real * factor == 0 as real) by (nonlinear_arith);
    }
}

/// A sum of positive numbers is positive.
pub(crate) proof fn lemma_positive_total(items: Seq<real>)
    requires
        forall|k: int| 0 <= k < items.len() ==> #[trigger] items[k] > 0 as real,
    ensures
        total(items) >= 0 as real,
        items.len() > 0 ==> total(items) > 0 as real,
    decreases items.len(),
{
    if items.len() > 0 {
        let front = items.drop_last();
        assert forall|k: int| 0 <= k < front.len() implies #[trigger] front[k] > 0 as real by {
            assert(items[k] > 0 as real);
        }
        lemma_positive_total(front);
        assert(items[items.len() - 1] > 0 as real);
    }
}

/// Numbers along an axis less one that is the same along it, and their
/// exponentials.
#[verifier::rlimit(40)]
pub(crate) proof fn lemma_centered(
    n: Numbers,
    x: Expr,
    shift: Expr,
    axis: usize,
    index: Seq<int>,
)
    requires
        n.lawful(),
        x->Is_0.dims.len() <= usize::MAX,
        axis < x->Is_0.dims.len(),
        within(x->Is_0.dims, index),
        x->Is_0.dtype == DType::F32,
        shift is Is,
        shift->Is_0.dims == collapsed(x->Is_0.dims, seq![axis]),
        x.sub(shift.broadcast_to(x->Is_0.dims)) is Is,
        x.sub(shift.broadcast_to(x->Is_0.dims)).exp() is Is,
    ensures
        ({
            let centered = x.sub(shift.broadcast_to(x->Is_0.dims));
            let level = n.at(shift, zeroed(index, seq![axis]));
            &&& n.at(centered, index) == n.at(x, index) - level
            &&& n.at(centered.exp(), index) * (n.exp)(level) == (n.exp)(n.at(x, index))
            &&& total(n.line(centered.exp(), axis, index)) * (n.exp)(level) == total(
                exponentials(n, n.line(x, axis, index)),
            )
            &&& total(n.line(centered.exp(), axis, index)) > 0 as real
        }),
{
    broadcast use {group_extents, group_operands, group_numbers};

    let dims = x->Is_0.dims;
    let axes = seq![axis];
    let wide = shift.broadcast_to(dims);
    let centered = x.sub(wide);
    let level = n.at(shift, zeroed(index, axes));
    let a = axis as int;
    assert(0 <= index[a] < dims[a]);
    assert(axes[0] == axis);
    assert forall|k: int| 0 <= k < dims[a] implies #[trigger] n.at(centered, index.update(a, k))
        == n.at(x, index.update(a, k)) - level && n.at(centered.exp(), index.update(a, k)) * (n.exp)(
        level,
    ) == (n.exp)(n.at(x, index.update(a, k))) && n.at(centered.exp(), index.update(a, k))
        > 0 as real by {
        let at = index.update(a, k);
        assert(within(dims, at)) by {
            assert forall|i: int| 0 <= i < dims.len() implies 0 <= #[trigger] at[i] < dims[i] by {
                assert(0 <= index[i] < dims[i]);
            }
        }
        spread_number(n, shift, dims, at);
        lemma_pulled_back(dims, axes, at);
        assert(zeroed(at, axes) =~= zeroed(index, axes)) by {
            assert forall|i: int| 0 <= i < at.len() implies #[trigger] zeroed(at, axes)[i]
                == zeroed(index, axes)[i] by {
                if i == a {
                    assert(axes.contains(i as usize));
                }
            }
        }
        assert(n.at(centered, at) == n.at(x, at) - level);
        assert((n.exp)((n.at(x, at) - level) + level) == (n.exp)(n.at(x, at) - level) * (n.exp)(
            level,
        ));
        assert((n.at(x, at) - level) + level == n.at(x, at));
    }
    assert(index.update(a, index[a]) =~= index);
    assert(n.at(centered, index.update(a, index[a])) == n.at(x, index) - level);
    let line = n.line(centered.exp(), axis, index);
    let plain = exponentials(n, n.line(x, axis, index));
    assert(centered.exp()->Is_0.dims == dims);
    assert forall|k: int| 0 <= k < line.len() implies #[trigger] line[k] * (n.exp)(level) == plain[k]
        && line[k] > 0 as real by {
        assert(n.at(centered, index.update(a, k)) == n.at(x, index.update(a, k)) - level);
    }
    lemma_scaled_total(line, plain, (n.exp)(level));
    lemma_positive_total(line);
}

proof fn lemma_share(e: real, t: real, f: real, p: real, s: real)
    by (nonlinear_arith)
    requires
        t > 0 as real,
        f > 0 as real,
        e * f == p,
        t * f == s,
    ensures
        (e / t) * s == p,
{
    assert((e / t) * t == e);
    assert((e / t) * (t * f) == e * f);
}

/// A softmax shares one among the exponentials: each element is its exponential
/// over the sum of those along the axis.
#[verifier::rlimit(40)]
pub proof fn softmax_shares_one_among_the_exponentials(
    n: Numbers,
    x: Expr,
    axis: usize,
    index: Seq<int>,
)
    requires
        n.lawful(),
        x.softmax(axis) is Is,
        x->Is_0.dims.len() <= usize::MAX,
        within(x->Is_0.dims, index),
    ensures
        n.at(x.softmax(axis), index) * total(exponentials(n, n.line(x, axis, index))) == (n.exp)(
            n.at(x, index),
        ),
        total(exponentials(n, n.line(x, axis, index))) > 0 as real,
{
    broadcast use {group_extents, group_operands, group_numbers};

    reveal(Expr::softmax);
    let dims = x->Is_0.dims;
    let axes = seq![axis];
    let shift = x.max(axes, true).detach();
    let e = x.sub(shift.broadcast_to(dims)).exp();
    let sums = e.sum(axes, true);
    let wide = sums.broadcast_to(dims);
    assert(x.softmax(axis) == e.div(wide));
    assert(shift is Is && e is Is && sums is Is && wide is Is);
    axes_reduce_their_lines(n, x, Reduction::Maximum, axis, index);
    lemma_centered(n, x, shift, axis, index);
    axes_reduce_their_lines(n, e, Reduction::Sum, axis, index);
    spread_number(n, sums, dims, index);
    let level = n.at(shift, zeroed(index, axes));
    let t = total(n.line(e, axis, index));
    let s = total(exponentials(n, n.line(x, axis, index)));
    lemma_share(n.at(e, index), t, (n.exp)(level), (n.exp)(n.at(x, index)), s);
    assert(s > 0 as real) by (nonlinear_arith)
        requires
            s == t * (n.exp)(level),
            t > 0 as real,
            (n.exp)(level) > 0 as real,
    ;
}

/// The logarithm of a product is the sum of the logarithms.
pub(crate) proof fn lemma_log_product(n: Numbers, a: real, b: real)
    requires
        n.exponential(),
        a > 0 as real,
    ensures
        (n.log)(a * (n.exp)(b)) == (n.log)(a) + b,
{
    let l = (n.log)(a);
    assert((n.exp)(l + b) == (n.exp)(l) * (n.exp)(b));
    assert((n.log)((n.exp)(l + b)) == l + b);
}

/// A log-softmax is the number less the logarithm of the sum of exponentials
/// along the axis.
#[verifier::rlimit(40)]
pub proof fn log_softmax_subtracts_the_log_of_the_sum(
    n: Numbers,
    x: Expr,
    axis: usize,
    index: Seq<int>,
)
    requires
        n.lawful(),
        x.log_softmax(axis) is Is,
        x->Is_0.dims.len() <= usize::MAX,
        within(x->Is_0.dims, index),
    ensures
        n.at(x.log_softmax(axis), index) == n.at(x, index) - (n.log)(
            total(exponentials(n, n.line(x, axis, index))),
        ),
        x.log_softmax(axis)->Is_0.dims == x->Is_0.dims,
        axis < x->Is_0.dims.len(),
{
    broadcast use {group_extents, group_operands, group_numbers};

    reveal(Expr::log_softmax);
    let dims = x->Is_0.dims;
    let axes = seq![axis];
    let shift = x.max(axes, true).detach();
    let centered = x.sub(shift.broadcast_to(dims));
    let e = centered.exp();
    let sums = e.sum(axes, true);
    let logs = sums.log();
    let wide = logs.broadcast_to(dims);
    assert(x.log_softmax(axis) == centered.sub(wide));
    assert(shift is Is && centered is Is && e is Is && sums is Is && wide is Is);
    axes_reduce_their_lines(n, x, Reduction::Maximum, axis, index);
    lemma_centered(n, x, shift, axis, index);
    axes_reduce_their_lines(n, e, Reduction::Sum, axis, index);
    spread_number(n, logs, dims, index);
    let level = n.at(shift, zeroed(index, axes));
    let t = total(n.line(e, axis, index));
    lemma_log_product(n, t, level);
    assert(n.at(logs, zeroed(index, axes)) == (n.log)(t));
}

/// Cross entropy with target probabilities is the sum of the targets, each
/// times the logarithm of the sum of exponentials less the logit of its class.
#[verifier::rlimit(40)]
pub proof fn cross_entropies_weigh_the_log_likelihoods(
    n: Numbers,
    x: Expr,
    targets: Expr,
    axis: usize,
    index: Seq<int>,
)
    requires
        n.lawful(),
        x.cross_entropy_with_probs(targets, axis) is Is,
        x->Is_0.dims.len() <= usize::MAX,
        within(x->Is_0.dims, index),
    ensures
        ({
            let logits = n.line(x, axis, index);
            let weights = n.line(targets, axis, index);
            let level = (n.log)(total(exponentials(n, logits)));
            n.at(x.cross_entropy_with_probs(targets, axis), index.remove(axis as int)) == -total(
                Seq::new(logits.len(), |k: int| (logits[k] - level) * weights[k]),
            )
        }),
{
    broadcast use {group_extents, group_operands, group_numbers};

    let dims = x->Is_0.dims;
    let a = axis as int;
    let likely = x.log_softmax(axis);
    let product = likely.mul(targets);
    let summed = product.sum(seq![axis], false);
    assert(likely is Is && product is Is && summed is Is);
    log_softmax_subtracts_the_log_of_the_sum(n, x, axis, index);
    assert(product->Is_0.dims == dims);
    removed_axes_reduce_their_lines(n, product, Reduction::Sum, axis, index);
    assert(0 <= index[a] < dims[a]);
    let logits = n.line(x, axis, index);
    let weights = n.line(targets, axis, index);
    let level = (n.log)(total(exponentials(n, logits)));
    let line = n.line(product, axis, index);
    let wanted = Seq::new(logits.len(), |k: int| (logits[k] - level) * weights[k]);
    assert forall|k: int| 0 <= k < line.len() implies #[trigger] line[k] == wanted[k] by {
        let at = index.update(a, k);
        assert(within(dims, at)) by {
            assert forall|i: int| 0 <= i < dims.len() implies 0 <= #[trigger] at[i] < dims[i] by {
                assert(0 <= index[i] < dims[i]);
            }
        }
        log_softmax_subtracts_the_log_of_the_sum(n, x, axis, at);
        assert(n.line(x, axis, at) =~= logits) by {
            assert forall|j: int| 0 <= j < logits.len() implies #[trigger] n.line(x, axis, at)[j]
                == logits[j] by {
                assert(at.update(a, j) =~= index.update(a, j));
            }
        }
        assert(n.at(product, at) == n.at(likely, at) * n.at(targets, at));
    }
    assert(line =~= wanted);
    let there = index.remove(a);
    assert(summed->Is_0.dims == kept(dims, seq![axis]));
    crate::reductions::lemma_kept_one(index, axis);
    crate::adjoints::lemma_collapsed_position(dims, seq![axis], index);
    assert(within(summed->Is_0.dims, there));
    assert(n.at(summed.neg(), there) == -n.at(summed, there));
}

proof fn lemma_shifted_back(n: Numbers, t: real, level: real, s: real)
    requires
        n.exponential(),
        t > 0 as real,
        t * (n.exp)(level) == s,
    ensures
        (n.exp)((n.log)(t) + level) == s,
        s > 0 as real,
{
    assert((n.exp)((n.log)(t) + level) == (n.exp)((n.log)(t)) * (n.exp)(level));
    let e = (n.exp)(level);
    assert(e > 0 as real);
    assert(t * e > 0 as real) by (nonlinear_arith)
        requires
            t > 0 as real,
            e > 0 as real,
    ;
}

/// The exponential of a log-sum-exp is the sum of the exponentials over the axes.
#[verifier::rlimit(40)]
pub proof fn log_sums_exponentiate_to_sums(
    n: Numbers,
    x: Expr,
    axes: Seq<usize>,
    index: Seq<int>,
)
    requires
        n.lawful(),
        axes.len() > 0,
        x->Is_0.dims.len() <= usize::MAX,
        within(x->Is_0.dims, index),
    ensures
        ({
            let dims = x->Is_0.dims;
            let sum = total(exponentials(n, n.row(x, chosen(dims.len(), axes), index)));
            &&& x.logsumexp(axes, true) is Is ==> (n.exp)(
                n.at(x.logsumexp(axes, true), zeroed(index, axes)),
            ) == sum
            &&& x.logsumexp(axes, false) is Is ==> (n.exp)(
                n.at(x.logsumexp(axes, false), kept_index(index, axes)),
            ) == sum
        }),
{
    broadcast use {group_extents, group_operands, group_numbers};

    if x.logsumexp(axes, true) is Is || x.logsumexp(axes, false) is Is {
        let dims = x->Is_0.dims;
        let listed = chosen(dims.len(), axes);
        let maximum = x.max(axes, true);
        let zero = maximum.filled(Scalar::Bits(F32_ZERO));
        let shift = maximum.is_finite_mask().select(maximum, zero).detach();
        let wide = shift.broadcast_to(dims);
        let centered = x.sub(wide);
        let e = centered.exp();
        let sums = e.sum(axes, true);
        let result = sums.log().add(shift);
        assert(maximum is Is && shift is Is && wide is Is && e is Is && sums is Is && result is Is);
        let there = zeroed(index, axes);
        let level = n.at(shift, there);
        lemma_pulled_back(dims, axes, index);
        lemma_row_count(dims, axes, index);
        let row = n.row(e, listed, index);
        let plain = exponentials(n, n.row(x, listed, index));
        let f = (n.exp)(level);
        assert forall|d: int| 0 <= d < row.len() implies #[trigger] row[d] * f == plain[d] && row[d]
            > 0 as real by {
            let at = row_index(dims, listed, index, d);
            lemma_row_index(dims, axes, index, d);
            lemma_pulled_back(dims, axes, at);
            spread_number(n, shift, dims, at);
            assert(n.at(centered, at) == n.at(x, at) - level);
            assert((n.exp)((n.at(x, at) - level) + level) == (n.exp)(n.at(x, at) - level) * f);
            assert((n.at(x, at) - level) + level == n.at(x, at));
        }
        lemma_scaled_total(row, plain, f);
        lemma_positive_total(row);
        assert(row.len() > 0) by {
            lemma_row_nonempty(dims, axes, index);
        }
        reductions_combine_their_rows(n, e, Reduction::Sum, axes, index);
        lemma_shifted_back(n, total(row), level, total(plain));
        assert(n.at(sums, there) == total(row));
        assert(n.at(result, there) == (n.log)(total(row)) + level);
        if x.logsumexp(axes, false) is Is {
            let flat = kept(dims, axes);
            reshape_keeps_the_order(result, flat, kept_index(index, axes));
            lemma_collapsed_position(dims, axes, index);
            lemma_unravel(collapsed(dims, axes), there);
        }
    }
}

/// A list of axes has an index where the shape does.
pub(crate) proof fn lemma_row_nonempty(dims: Seq<i64>, axes: Seq<usize>, index: Seq<int>)
    requires
        within(dims, index),
        dims.len() <= usize::MAX,
    ensures
        count(gathered(dims, chosen(dims.len(), axes))) > 0,
{
    let listed = chosen(dims.len(), axes);
    lemma_chosen_members(dims.len(), axes);
    let inner = gathered(dims, listed);
    assert forall|i: int| 0 <= i < inner.len() implies #[trigger] inner[i] > 0 by {
        assert(listed[i] < dims.len());
        assert(0 <= index[listed[i] as int] < dims[listed[i] as int]);
    }
    lemma_count_positive(inner);
}

proof fn lemma_count_positive(dims: Seq<i64>)
    requires
        forall|i: int| 0 <= i < dims.len() ==> #[trigger] dims[i] > 0,
    ensures
        count(dims) > 0,
    decreases dims.len(),
{
    if dims.len() > 0 {
        let front = dims.drop_last();
        assert forall|i: int| 0 <= i < front.len() implies #[trigger] front[i] > 0 by {
            assert(dims[i] > 0);
        }
        lemma_count_positive(front);
        let (a, b) = (count(front), dims.last() as int);
        assert(dims[dims.len() - 1] > 0);
        assert(a * b > 0) by (nonlinear_arith)
            requires
                a > 0,
                b > 0,
        ;
    }
}

proof fn lemma_greater_first(n: Numbers, a: real, b: real)
    requires
        n.exponential(),
        a >= b,
    ensures
        (n.exp)(a + (n.log)(1 as real + (n.exp)(-(a - b)))) == (n.exp)(a) + (n.exp)(b),
{
    let e = (n.exp)(-(a - b));
    assert((n.exp)(a + (n.log)(1 as real + e)) == (n.exp)(a) * (n.exp)((n.log)(1 as real + e)));
    assert(e > 0 as real);
    assert((n.exp)((n.log)(1 as real + e)) == 1 as real + e);
    assert((n.exp)(a + (-(a - b))) == (n.exp)(a) * e);
    assert(a + (-(a - b)) == b);
    let f = (n.exp)(a);
    assert(f * (1 as real + e) == f + f * e) by (nonlinear_arith);
}

proof fn lemma_partial(n: Numbers, a: real, b: real)
    requires
        n.exponential(),
    ensures
        n.logistic(a - b) * ((n.exp)(a) + (n.exp)(b)) == (n.exp)(a),
{
    let e = (n.exp)(-(a - b));
    let f = (n.exp)(a);
    assert((n.exp)(a + (-(a - b))) == f * e);
    assert(a + (-(a - b)) == b);
    assert(e > 0 as real);
    assert((1 as real / (1 as real + e)) * (f + f * e) == f) by (nonlinear_arith)
        requires
            e > 0 as real,
    {
        let r = 1 as real / (1 as real + e);
        assert(r * (1 as real + e) == 1 as real);
        assert(f + f * e == f * (1 as real + e));
        assert(r * (f * (1 as real + e)) == f * (r * (1 as real + e)));
    }
}

/// The exponential of a log-add-exp is the sum of the exponentials, and its
/// partial derivatives are the shares of its operands in that sum.
#[verifier::rlimit(40)]
pub proof fn log_additions_exponentiate_to_sums(n: Numbers, x: Expr, y: Expr, index: Seq<int>)
    requires
        n.lawful(),
        x.logaddexp(y) is Is,
        within(x->Is_0.dims, index),
    ensures
        ({
            let z = x.logaddexp(y)->Is_0;
            let (a, b) = ((n.exp)(n.at(x, index)), (n.exp)(n.at(y, index)));
            &&& (n.exp)(n.of(z, index)) == a + b
            &&& z.args.len() == 5 && Expr::Is(z.args[1]) == x && Expr::Is(z.args[3]) == y
            &&& n.of(z.args[2], index) * (a + b) == a
            &&& n.of(z.args[4], index) * (a + b) == b
        }),
{
    broadcast use {group_extents, group_operands, group_numbers};

    reveal(Expr::logaddexp);
    let maximum = x.maximum(y);
    let delta = x.sub(y);
    let finite = maximum.add(delta.abs().neg().exp().log1p());
    let nonfinite = x.exp().add(y.exp()).log();
    let forward = maximum.is_finite_mask().select(finite, nonfinite);
    let left = delta.sigmoid();
    let right = delta.neg().sigmoid();
    assert(x is Is && y is Is && maximum is Is && delta is Is && finite is Is && nonfinite is Is
        && forward is Is && left is Is && right is Is);
    let z = x.logaddexp(y)->Is_0;
    let (a, b) = (n.at(x, index), n.at(y, index));
    let parts = seq![(x->Is_0, left->Is_0), (y->Is_0, right->Is_0)];
    assert(z.args == seq![forward->Is_0] + interleaved(parts) && z.op
        == OpModel::WithElementwiseDerivative && z.dims == forward->Is_0.dims) by {
        reveal(applied);
    }
    assert(interleaved(parts) =~= seq![x->Is_0, left->Is_0, y->Is_0, right->Is_0]) by {
        assert(parts[0] == parts[0] && parts[1] == parts[1]);
    }
    assert(n.of(z, index) == n.at(forward, index)) by {
        reveal(Numbers::obeys);
        assert(n.obeys(z, index));
    }
    assert(n.at(delta, index) == a - b);
    assert(n.at(maximum, index) == greater(a, b));
    assert(n.at(finite, index) == greater(a, b) + (n.log)(
        1 as real + (n.exp)(-n.at(delta.abs(), index)),
    ));
    assert(n.at(nonfinite, index) == (n.log)((n.exp)(a) + (n.exp)(b)));
    if a >= b {
        lemma_greater_first(n, a, b);
    } else {
        lemma_greater_first(n, b, a);
    }
    lemma_partial(n, a, b);
    lemma_partial(n, b, a);
    assert(n.at(delta.neg(), index) == -(a - b));
    assert(-(a - b) == b - a);
    assert(n.at(left, index) == n.logistic(a - b));
    assert(n.at(right, index) == n.logistic(b - a));
}

/// Cross entropy with target classes is the logarithm of the sum of exponentials
/// less the logit of the target; NaN where the target is no class.
#[verifier::rlimit(40)]
pub proof fn cross_entropies_take_the_target_class(
    n: Numbers,
    x: Expr,
    targets: Expr,
    axis: usize,
    index: Seq<int>,
)
    requires
        n.lawful(),
        x.cross_entropy_with_indices(targets, axis) is Is,
        x->Is_0.dims.len() <= usize::MAX,
        within(x->Is_0.dims, index),
        x->Is_0.dims[axis as int] <= i32::MAX,
    ensures
        ({
            let at = index.remove(axis as int);
            let target = signed(n.word_at(targets, at));
            let logits = n.line(x, axis, index);
            n.at(x.cross_entropy_with_indices(targets, axis), at) == if 0 <= target < logits.len() {
                (n.log)(total(exponentials(n, logits))) - logits[target]
            } else {
                (n.literal)(F32_NAN)
            }
        }),
{
    broadcast use {group_extents, group_operands, group_numbers};

    let v = x->Is_0;
    let a = axis as int;
    let dims = v.dims.remove(a);
    let at = index.remove(a);
    let likely = x.log_softmax(axis);
    let unit = dims.insert(a, 1);
    let indices = targets.reshape(unit);
    let taken = likely.take_along_axis(indices, axis);
    let flat = taken.reshape(dims);
    let loss = flat.neg();
    let first = scalar_i32(v.graph, 0);
    let final_class = scalar_i32(v.graph, last_class(v.dims[a]));
    let zero = first.broadcast_to(dims);
    let last = final_class.broadcast_to(dims);
    let above = zero.le_mask(targets);
    let below = targets.le_mask(last);
    let valid = above.mul(below);
    let blank = scalar(v.graph, Scalar::Bits(F32_NAN));
    let nan = blank.broadcast_to(dims);
    assert(x.cross_entropy_with_indices(targets, axis) == valid.select(loss, nan));
    assert(likely is Is && indices is Is && taken is Is && flat is Is && zero is Is && last is Is
        && above is Is && below is Is && valid is Is && nan is Is && targets is Is);
    log_softmax_subtracts_the_log_of_the_sum(n, x, axis, index);
    assert(0 <= index[a] < v.dims[a]);
    assert(within(dims, at)) by {
        assert forall|i: int| 0 <= i < dims.len() implies 0 <= #[trigger] at[i] < dims[i] by {
            if i < a {
                assert(0 <= index[i] < v.dims[i]);
            } else {
                assert(0 <= index[i + 1] < v.dims[i + 1]);
            }
        }
    }
    let target = signed(n.word_at(targets, at));
    let size = v.dims[a];
    let longer = at.insert(a, 0);
    assert(within(unit, longer)) by {
        assert forall|i: int| 0 <= i < unit.len() implies 0 <= #[trigger] longer[i] < unit[i] by {
            if i < a {
                assert(0 <= at[i] < dims[i]);
            } else if i > a {
                assert(0 <= at[i - 1] < dims[i - 1]);
            }
        }
    }
    crate::elements::lemma_ravel_unit(dims, at, a);
    assert(targets->Is_0.dims == dims);
    reshape_keeps_the_order(targets, unit, longer);
    lemma_unravel(dims, at);
    assert(copied(indices, longer) == copied(targets, at));
    assert(taken->Is_0.dims == unit && indices->Is_0.dims == unit) by {
        reveal(applied);
    }
    reshape_keeps_the_order(taken, dims, at);
    lemma_unravel(unit, longer);
    assert(n.at(flat, at) == n.at(taken, longer));
    let source = longer.update(a, clamped(target, size as int));
    assert(n.at(taken, longer) == n.at(likely, source)) by {
        reveal(applied);
        reveal(Numbers::obeys);
        assert(n.obeys(taken->Is_0, longer));
    }
    lemma_constant_word(n, v.graph, 0, dims, at);
    lemma_constant_word(n, v.graph, last_class(size), dims, at);
    assert(zero->Is_0.dtype == DType::I32 && targets->Is_0.dtype == DType::I32) by {
        reveal(typed);
        reveal(applied);
    }
    assert(n.at(above, at) == indicator(0 <= target));
    assert(n.at(below, at) == indicator(target <= size - 1));
    let (p, q) = (n.at(above, at), n.at(below, at));
    assert(n.at(valid, at) == p * q);
    assert(p * q != 0 as real <==> (p != 0 as real && q != 0 as real)) by (nonlinear_arith);
    spread_number(n, blank, dims, at);
    crate::numbers::scalar_number(n, v.graph, Scalar::Bits(F32_NAN));
    assert(blank->Is_0.dims.len() == 0) by {
        reveal(applied);
    }
    assert(pulled(blank->Is_0.dims, at) =~= Seq::empty());
    if 0 <= target < size {
        assert(source =~= index.update(a, target));
        assert(within(v.dims, source)) by {
            assert forall|i: int| 0 <= i < v.dims.len() implies 0 <= #[trigger] source[i]
                < v.dims[i] by {
                assert(0 <= index[i] < v.dims[i]);
            }
        }
        log_softmax_subtracts_the_log_of_the_sum(n, x, axis, source);
        assert(n.line(x, axis, source) =~= n.line(x, axis, index)) by {
            assert forall|k: int| 0 <= k < size implies source.update(a, k) == #[trigger] index.update(
                a,
                k,
            ) by {
                assert(source.update(a, k) =~= index.update(a, k));
            }
        }
    }
}

/// A word constant, spread.
proof fn lemma_constant_word(n: Numbers, graph: u64, value: i32, dims: Seq<i64>, index: Seq<int>)
    requires
        n.computes(),
        scalar_i32(graph, value).broadcast_to(dims) is Is,
        within(dims, index),
        dims.len() <= usize::MAX,
    ensures
        signed(n.word_at(scalar_i32(graph, value).broadcast_to(dims), index)) == value,
{
    let one = scalar_i32(graph, value);
    assert(one is Is && one->Is_0.dims == Seq::<i64>::empty() && one->Is_0.op
        == OpModel::ConstantI32(seq![value]) && one->Is_0.args.len() == 0) by {
        reveal(typed);
        reveal(applied);
    }
    lemma_pulled(one, dims, index);
    let nowhere = Seq::<int>::empty();
    assert(pulled(one->Is_0.dims, index) =~= nowhere);
    reveal(Numbers::obeys);
    assert(n.obeys(one->Is_0, nowhere));
}

} // verus!
